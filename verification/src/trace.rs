//! Facts about growing event traces.
//!
//! Every driver method only ever appends to its pin bundle's event trace,
//! so a trace observed before a call is a prefix of the trace after it;
//! these lemmas chain such prefix facts through a transfer.

use vstd::prelude::*;

verus! {

/// A trace is a prefix of itself.
pub proof fn lemma_prefix_refl<T>(a: Seq<T>)
    ensures
        a.is_prefix_of(a),
{
    assert(a =~= a.subrange(0, a.len() as int));
}

/// A trace is a prefix of any extension of itself.
pub proof fn lemma_prefix_extend<T>(a: Seq<T>, b: Seq<T>)
    ensures
        a.is_prefix_of(a + b),
{
    assert(a =~= (a + b).subrange(0, a.len() as int));
}

/// Prefixes chain.
pub proof fn lemma_prefix_trans<T>(a: Seq<T>, b: Seq<T>, c: Seq<T>)
    requires
        a.is_prefix_of(b),
        b.is_prefix_of(c),
    ensures
        a.is_prefix_of(c),
{
    assert(a =~= c.subrange(0, a.len() as int));
}

} // verus!
