//! The tree as text: on one line with arrows towards the subtrees, or on
//! several lines with the depth shown by indentation.
//!
//! How an item reads as text is decided by its `Debug` implementation. The
//! layout around the items is stated exactly, over a tree that holds the
//! items' texts as labels.

use crate::bin_tree::{BinTree, BinTreeNode};
use vstd::prelude::*;
use vstd::string::StringExecFns;

verus! {

/// The text that `Debug` gives for a value.
///
/// This calls `format!` with `{:?}`, which Verus does not look into: nothing
/// is claimed about the text.
#[verifier::external_body]
pub(crate) fn debug_text<T: core::fmt::Debug>(value: &T) -> (text: String) {
    format!("{:?}", value)
}

/// `tab` written `times` times in a row.
pub open spec fn repeated(tab: Seq<char>, times: nat) -> Seq<char>
    decreases times,
{
    if times == 0 {
        Seq::empty()
    } else {
        repeated(tab, (times - 1) as nat) + tab
    }
}

impl<Item> BinTree<Item> {
    /// A tree of the same shape that holds, for each item, its `Debug` text.
    pub fn labels(&self) -> (l: BinTree<String>) where Item: core::fmt::Debug
        ensures
            self.same_shape(l),
        decreases self,
    {
        match &self.root {
            None => BinTree { root: None, height: self.height },
            Some(node) => {
                let value = debug_text(&node.value);
                let left = node.left.labels();
                let right = node.right.labels();
                BinTree { root: Some(Box::new(BinTreeNode { value, left, right })), height: self.height }
            },
        }
    }

    /// Appends the tree on one line to `out`: the layout of
    /// [`BinTree::line_text`] around the `Debug` texts of the items.
    pub fn write_line(&self, out: &mut String) where Item: core::fmt::Debug
        ensures
            exists|l: BinTree<String>|
                self.same_shape(l) && final(out)@ == old(out)@ + l.line_text(),
    {
        let l = self.labels();
        l.write_line_labels(out);
    }

    /// The tree on one line: the layout of [`BinTree::line_text`] around the
    /// `Debug` texts of the items.
    pub fn to_string(&self) -> (text: String) where Item: core::fmt::Debug
        ensures
            exists|l: BinTree<String>| self.same_shape(l) && text@ == l.line_text(),
    {
        let l = self.labels();
        let mut text = String::new();
        l.write_line_labels(&mut text);
        proof {
            assert(Seq::<char>::empty() + l.line_text() =~= l.line_text());
        }
        text
    }

    /// Appends the tree on several lines to `out`: the layout of
    /// [`BinTree::pretty_text`] around the `Debug` texts of the items, with
    /// `tab` as the unit of indentation.
    pub fn pretty_write(&self, out: &mut String, tab: &str) where Item: core::fmt::Debug
        requires
            self.depth() < usize::MAX,
        ensures
            exists|l: BinTree<String>|
                self.same_shape(l) && final(out)@ == old(out)@ + l.pretty_text(tab@, 0),
    {
        let l = self.labels();
        proof {
            self.lemma_same_shape(l);
        }
        l.pretty_write_indent(out, tab, 0);
    }
}

impl BinTree<String> {
    /// The tree on one line. An empty tree reads `()`. A node reads `(`, then
    /// its left subtree and ` <= ` if that subtree is not empty, then its
    /// label, then ` => ` and its right subtree if that subtree is not empty,
    /// then `)`.
    pub open spec fn line_text(self) -> Seq<char>
        decreases self,
    {
        match self.root {
            None => seq!['(', ')'],
            Some(node) => {
                let before = if node.left.root is Some {
                    node.left.line_text() + seq![' ', '<', '=', ' ']
                } else {
                    Seq::empty()
                };
                let after = if node.right.root is Some {
                    seq![' ', '=', '>', ' '] + node.right.line_text()
                } else {
                    Seq::empty()
                };
                seq!['('] + before + node.value@ + after + seq![')']
            },
        }
    }

    /// The tree on several lines, one per node and per empty subtree, at the
    /// depth `indent`: first the right subtree one level deeper, then the
    /// label behind `indent` tabs, then the left subtree one level deeper. An
    /// empty tree is a line that reads `@`.
    pub open spec fn pretty_text(self, tab: Seq<char>, indent: nat) -> Seq<char>
        decreases self,
    {
        match self.root {
            None => repeated(tab, indent) + seq!['@', '\n'],
            Some(node) => node.right.pretty_text(tab, indent + 1) + repeated(tab, indent)
                + node.value@ + seq!['\n'] + node.left.pretty_text(tab, indent + 1),
        }
    }

    /// Appends the labels on one line to `out`, laid out as `line_text` says.
    pub fn write_line_labels(&self, out: &mut String)
        ensures
            final(out)@ == old(out)@ + self.line_text(),
        decreases self,
    {
        proof {
            reveal_strlit("()");
            reveal_strlit("(");
            reveal_strlit(" <= ");
            reveal_strlit(" => ");
            reveal_strlit(")");
        }
        match &self.root {
            None => {
                out.append("()");
                proof {
                    assert("()"@ =~= seq!['(', ')']);
                }
            },
            Some(node) => {
                out.append("(");
                if !node.left.is_empty() {
                    node.left.write_line_labels(out);
                    out.append(" <= ");
                }
                out.append(node.value.as_str());
                if !node.right.is_empty() {
                    out.append(" => ");
                    node.right.write_line_labels(out);
                }
                out.append(")");
                proof {
                    assert("("@ =~= seq!['(']);
                    assert(")"@ =~= seq![')']);
                    assert(" <= "@ =~= seq![' ', '<', '=', ' ']);
                    assert(" => "@ =~= seq![' ', '=', '>', ' ']);
                    assert(out@ =~= old(out)@ + self.line_text());
                }
            },
        }
    }

    /// Appends the labels on several lines to `out`, laid out as
    /// `pretty_text` says.
    pub fn pretty_write_indent(&self, out: &mut String, tab: &str, indent: usize)
        requires
            indent + self.depth() < usize::MAX,
        ensures
            final(out)@ == old(out)@ + self.pretty_text(tab@, indent as nat),
        decreases self,
    {
        proof {
            reveal_strlit("@\n");
            reveal_strlit("\n");
        }
        match &self.root {
            None => {
                write_repeated(out, tab, indent);
                out.append("@\n");
                proof {
                    assert("@\n"@ =~= seq!['@', '\n']);
                    assert(out@ =~= old(out)@ + self.pretty_text(tab@, indent as nat));
                }
            },
            Some(node) => {
                node.right.pretty_write_indent(out, tab, indent + 1);
                write_repeated(out, tab, indent);
                out.append(node.value.as_str());
                out.append("\n");
                node.left.pretty_write_indent(out, tab, indent + 1);
                proof {
                    assert("\n"@ =~= seq!['\n']);
                    assert(out@ =~= old(out)@ + self.pretty_text(tab@, indent as nat));
                }
            },
        }
    }
}

/// Appends `tab` to `out`, `times` times.
pub fn write_repeated(out: &mut String, tab: &str, times: usize)
    ensures
        final(out)@ == old(out)@ + repeated(tab@, times as nat),
{
    let mut i: usize = 0;
    proof {
        assert(old(out)@ + repeated(tab@, 0) =~= old(out)@);
    }
    while i < times
        invariant
            i <= times,
            out@ == old(out)@ + repeated(tab@, i as nat),
        decreases times - i,
    {
        out.append(tab);
        i = i + 1;
        proof {
            assert(out@ =~= old(out)@ + repeated(tab@, i as nat));
        }
    }
}

/// The texts with `, ` between each two of them.
pub open spec fn joined(labels: Seq<Seq<char>>) -> Seq<char>
    decreases labels.len(),
{
    if labels.len() == 0 {
        Seq::empty()
    } else if labels.len() == 1 {
        labels[0]
    } else {
        joined(labels.drop_last()) + seq![',', ' '] + labels.last()
    }
}

/// The texts as a list: between `[` and `]`, with `, ` between each two.
pub open spec fn list_text(labels: Seq<Seq<char>>) -> Seq<char> {
    seq!['['] + joined(labels) + seq![']']
}

/// Two texts as a pair: between `(` and `)`, with `, ` between them.
pub open spec fn pair_text(first: Seq<char>, second: Seq<char>) -> Seq<char> {
    seq!['('] + first + seq![',', ' '] + second + seq![')']
}

/// What the strings hold, in their order.
pub open spec fn texts_of(labels: Seq<String>) -> Seq<Seq<char>> {
    Seq::new(labels.len(), |i: int| labels[i]@)
}

/// The strings as a list, laid out as `list_text` says.
pub fn list_string(labels: &Vec<String>) -> (text: String)
    ensures
        text@ == list_text(texts_of(labels@)),
{
    proof {
        reveal_strlit("[");
        reveal_strlit("]");
        reveal_strlit(", ");
    }
    let mut text = String::new();
    text.append("[");
    let mut i: usize = 0;
    while i < labels.len()
        invariant
            i <= labels.len(),
            text@ == seq!['['] + joined(texts_of(labels@).take(i as int)),
        decreases labels.len() - i,
    {
        if i > 0 {
            text.append(", ");
        }
        text.append(labels[i].as_str());
        proof {
            reveal_strlit(", ");
            let all = texts_of(labels@);
            assert(all.take(i + 1).drop_last() =~= all.take(i as int));
            assert(all.take(i + 1).last() == labels@[i as int]@);
            assert(", "@ =~= seq![',', ' ']);
            if i == 0 {
                assert(joined(all.take(0)) =~= Seq::<char>::empty());
                assert(text@ =~= seq!['['] + joined(all.take(1)));
            } else {
                assert(text@ =~= seq!['['] + joined(all.take(i + 1)));
            }
        }
        i = i + 1;
    }
    text.append("]");
    proof {
        let all = texts_of(labels@);
        assert(all.take(labels.len() as int) =~= all);
        assert("["@ =~= seq!['[']);
        assert("]"@ =~= seq![']']);
    }
    text
}

/// Two strings as a pair, laid out as `pair_text` says.
pub fn pair_string(first: &String, second: &String) -> (text: String)
    ensures
        text@ == pair_text(first@, second@),
{
    proof {
        reveal_strlit("(");
        reveal_strlit(")");
        reveal_strlit(", ");
    }
    let mut text = String::new();
    text.append("(");
    text.append(first.as_str());
    text.append(", ");
    text.append(second.as_str());
    text.append(")");
    proof {
        assert("("@ =~= seq!['(']);
        assert(")"@ =~= seq![')']);
        assert(", "@ =~= seq![',', ' ']);
        assert(text@ =~= pair_text(first@, second@));
    }
    text
}

/// The two layouts in which a tree can be written.
pub enum FormattedBinTreeType<'a> {
    /// On several lines, indented by the given text once per level.
    PrettyIndent(&'a str),
    /// On one line.
    Line,
}

/// A tree together with the layout in which it is to be written.
pub struct FormattedBinTree<'a, T> {
    inner: &'a BinTree<T>,
    format: FormattedBinTreeType<'a>,
}

impl<'a, T> FormattedBinTree<'a, T> {
    /// The tree that is to be written.
    pub closed spec fn tree(self) -> BinTree<T> {
        *self.inner
    }

    /// The indentation unit of the layout, if the layout is on several lines.
    pub closed spec fn tab(self) -> Option<Seq<char>> {
        match self.format {
            FormattedBinTreeType::PrettyIndent(tab) => Some(tab@),
            FormattedBinTreeType::Line => None,
        }
    }

    /// Joins a tree and a layout.
    pub fn new(t: &'a BinTree<T>, fmt: FormattedBinTreeType<'a>) -> (f: Self)
        ensures
            f.tree() == *t,
            f.tab() == match fmt {
                FormattedBinTreeType::PrettyIndent(tab) => Some(tab@),
                FormattedBinTreeType::Line => None,
            },
    {
        Self { inner: t, format: fmt }
    }

    /// The tree that is to be written.
    pub fn inner(&self) -> (t: &'a BinTree<T>)
        ensures
            *t == self.tree(),
    {
        self.inner
    }

    /// The tree as text in the layout chosen.
    pub fn to_string(&self) -> (text: String) where T: core::fmt::Debug
        requires
            self.tab() is Some ==> self.tree().depth() < usize::MAX,
        ensures
            exists|l: BinTree<String>|
                self.tree().same_shape(l) && text@ == match self.tab() {
                    Some(tab) => l.pretty_text(tab, 0),
                    None => l.line_text(),
                },
    {
        let mut text = String::new();
        match self.format {
            FormattedBinTreeType::Line => {
                self.inner.write_line(&mut text);
                proof {
                    let l = choose|l: BinTree<String>|
                        self.tree().same_shape(l) && text@ == Seq::<char>::empty() + l.line_text();
                    assert(Seq::<char>::empty() + l.line_text() =~= l.line_text());
                }
            },
            FormattedBinTreeType::PrettyIndent(tab) => {
                self.inner.pretty_write(&mut text, tab);
                proof {
                    let l = choose|l: BinTree<String>|
                        self.tree().same_shape(l) && text@ == Seq::<char>::empty() + l.pretty_text(
                            tab@,
                            0,
                        );
                    assert(Seq::<char>::empty() + l.pretty_text(tab@, 0) =~= l.pretty_text(
                        tab@,
                        0,
                    ));
                }
            },
        }
        text
    }
}

} // verus!
