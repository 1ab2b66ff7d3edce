//! A standalone label-expression renderer: an independent AST-to-text
//! pass for a label-matching syntax, not yet consumed by the query
//! compiler.
use vstd::prelude::*;

verus! {

/// A single label identifier.
#[derive(Debug)]
pub struct Label {
    pub ident: String,
}

impl Label {
    pub fn new(ident: &str) -> (r: Label)
        ensures
            r.ident@ == ident@,
    {
        Label { ident: ident.to_owned() }
    }
}

/// Build a label.
pub fn label(ident: &str) -> (r: Label)
    ensures
        r.ident@ == ident@,
{
    Label::new(ident)
}

/// One `:ident` block per label, in order.
pub open spec fn labels_blocks(s: Seq<Label>) -> Seq<char>
    decreases s.len(),
{
    if s.len() == 0 {
        Seq::empty()
    } else {
        labels_blocks(s.drop_last()).push(':') + s.last().ident@
    }
}

/// The rendered text of a label list: `:A:B:...`; an empty list renders
/// as the colon alone.
pub open spec fn labels_text(s: Seq<Label>) -> Seq<char> {
    if s.len() == 0 {
        Seq::empty().push(':')
    } else {
        labels_blocks(s)
    }
}

/// Render a value of the label syntax to its text form.
pub trait ToCypher {
    spec fn cypher_spec(&self) -> Seq<char>;

    fn to_cypher(self) -> (r: String) where Self: Sized
        ensures
            r@ == self.cypher_spec(),
    ;
}

impl ToCypher for Label {
    /// A lone label renders as its identifier, with no colon.
    open spec fn cypher_spec(&self) -> Seq<char> {
        self.ident@
    }

    fn to_cypher(self) -> (r: String) {
        self.ident
    }
}

impl ToCypher for Vec<Label> {
    /// A label list renders as `:A:B:...`.
    open spec fn cypher_spec(&self) -> Seq<char> {
        labels_text(self@)
    }

    fn to_cypher(self) -> (r: String) {
        let mut out = String::new();
        let n = self.len();
        if n == 0 {
            out.append(":");
            proof {
                reveal_strlit(":");
                assert(out@ =~= Seq::<char>::empty().push(':'));
            }
            return out;
        }
        let mut i: usize = 0;
        proof {
            assert(labels_blocks(self@.take(0)) == Seq::<char>::empty());
            assert(out@ =~= labels_blocks(self@.take(0)));
        }
        while i < n
            invariant
                n == self@.len(),
                i <= n,
                out@ == labels_blocks(self@.take(i as int)),
            decreases n - i,
        {
            out.append(":");
            out.append(self[i].ident.as_str());
            proof {
                reveal_strlit(":");
                assert(self@.take(i + 1).drop_last() =~= self@.take(i as int));
                assert(self@.take(i + 1).last() == self@[i as int]);
                assert(out@ =~= labels_blocks(self@.take(i + 1)));
            }
            i = i + 1;
        }
        proof {
            assert(self@.take(n as int) =~= self@);
        }
        out
    }
}

} // verus!
