//! The hydration addressing coordinator: a monotonic id allocator for
//! addressable markers, and the hydrating/non-hydrating mode flag of one
//! render context.
//!
//! Marker ids are handed out in strictly increasing order of first creation
//! across a render pass. A server pass and a client re-pass that create
//! markers in the same order therefore label them identically, which is what
//! lets the client pass re-attach to the server's markup instead of
//! re-creating it.

use vstd::prelude::*;

verus! {

/// A marker label character for one decimal digit.
pub open spec fn spec_digit_char(d: int) -> char {
    if d == 0 {
        '0'
    } else if d == 1 {
        '1'
    } else if d == 2 {
        '2'
    } else if d == 3 {
        '3'
    } else if d == 4 {
        '4'
    } else if d == 5 {
        '5'
    } else if d == 6 {
        '6'
    } else if d == 7 {
        '7'
    } else if d == 8 {
        '8'
    } else {
        '9'
    }
}

/// The decimal digits of `n`, most significant first.
pub open spec fn spec_decimal(n: int) -> Seq<char>
    decreases n,
{
    if n < 10 {
        seq![spec_digit_char(n)]
    } else {
        spec_decimal(n / 10).push(spec_digit_char(n % 10))
    }
}

/// The label of marker `id`: an underscore, the decimal id and, in the
/// diagnostic form, a suffix that tells an opening marker from a closing
/// one. Both forms carry the same numeric id, so both match the same marker
/// position across passes.
pub open spec fn spec_label(id: usize, closing: bool, diagnostics: bool) -> Seq<char> {
    seq!['_'] + spec_decimal(id as int) + (if diagnostics {
        seq![if closing { 'c' } else { 'o' }]
    } else {
        Seq::<char>::empty()
    })
}

/// The hydration coordinator of one render context.
pub struct HydrationCtx {
    next_id: usize,
    hydrating: bool,
}

/// What one `id` call does to the coordinator: it returns the counter and
/// advances it, wrapping instead of failing at the end of the id space.
pub open spec fn id_step(pre: HydrationCtx, post: HydrationCtx, id: usize) -> bool {
    &&& id == pre.next_id_spec()
    &&& post.next_id_spec() == (if pre.next_id_spec() == usize::MAX {
        0usize
    } else {
        (pre.next_id_spec() + 1) as usize
    })
    &&& post.hydrating_spec() == pre.hydrating_spec()
}

impl HydrationCtx {
    /// The id the next `id` call will return.
    pub closed spec fn next_id_spec(&self) -> usize {
        self.next_id
    }

    /// Whether the context is still in its first, hydrating pass.
    pub closed spec fn hydrating_spec(&self) -> bool {
        self.hydrating
    }

    /// Creates the coordinator of a fresh render context.
    /// `first_marker_present` is the result of probing the rendered surface
    /// for the first marker (see [`HydrationCtx::probe`]): when it is
    /// already there, a server pass produced the markup and this pass
    /// hydrates it; otherwise the pass renders from scratch.
    pub fn new(first_marker_present: bool) -> (c: HydrationCtx)
        ensures
            c.next_id_spec() == 0,
            c.hydrating_spec() == first_marker_present,
    {
        HydrationCtx { next_id: 0, hydrating: first_marker_present }
    }

    /// Decides from the labels present in a rendered surface whether a
    /// prior pass left the first marker: exactly when some label reads
    /// `_0`, or `_0o` in the diagnostic form. An inconsistent surface thus
    /// falls back to a fresh, non-hydrating render.
    pub fn probe(labels: &Vec<String>) -> (b: bool)
        ensures
            b == exists|i: int|
                0 <= i < labels@.len() && (#[trigger] labels@[i]@ == spec_label(0, false, false)
                    || labels@[i]@ == spec_label(0, false, true)),
    {
        let plain = Self::to_string(0, false, false);
        let diagnostic = Self::to_string(0, false, true);
        let mut i: usize = 0;
        while i < labels.len()
            invariant
                i <= labels@.len(),
                plain@ == spec_label(0, false, false),
                diagnostic@ == spec_label(0, false, true),
                forall|p: int|
                    0 <= p < i ==> !(#[trigger] labels@[p]@ == spec_label(0, false, false)
                        || labels@[p]@ == spec_label(0, false, true)),
            decreases labels@.len() - i,
        {
            if labels[i] == plain || labels[i] == diagnostic {
                return true;
            }
            i += 1;
        }
        false
    }

    /// Returns the next marker id and advances the counter. The counter
    /// wraps at the end of the id space rather than failing; within one
    /// render pass the ids handed out are strictly increasing (see
    /// [`lemma_id_monotonic`]).
    pub fn id(&mut self) -> (id: usize)
        ensures
            id_step(*old(self), *final(self), id),
    {
        let id = self.next_id;
        self.next_id = if self.next_id == usize::MAX {
            0
        } else {
            self.next_id + 1
        };
        id
    }

    /// Whether this pass hydrates server-rendered markup.
    pub fn is_hydrating(&self) -> (b: bool)
        ensures
            b == self.hydrating_spec(),
    {
        self.hydrating
    }

    /// Leaves hydration mode, once the first hydration pass has completed;
    /// idempotent, and every later update then runs non-hydrating.
    pub fn stop_hydrating(&mut self)
        ensures
            !final(self).hydrating_spec(),
            final(self).next_id_spec() == old(self).next_id_spec(),
    {
        self.hydrating = false;
    }

    /// The label of marker `id`, in the plain or the diagnostic form.
    pub fn to_string(id: usize, closing: bool, diagnostics: bool) -> (s: String)
        ensures
            s@ == spec_label(id, closing, diagnostics),
    {
        let mut s = String::new();
        push_char(&mut s, '_');
        push_decimal(&mut s, id);
        if diagnostics {
            push_char(&mut s, if closing { 'c' } else { 'o' });
        }
        proof {
            assert(s@ =~= spec_label(id, closing, diagnostics));
        }
        s
    }
}

/// Hydration id monotonicity: two successive `id` calls of one render pass
/// that does not exhaust the id space return strictly increasing values,
/// the first being the counter's initial value.
pub proof fn lemma_id_monotonic(
    c0: HydrationCtx,
    c1: HydrationCtx,
    c2: HydrationCtx,
    id1: usize,
    id2: usize,
)
    requires
        id_step(c0, c1, id1),
        id_step(c1, c2, id2),
        c0.next_id_spec() < usize::MAX,
    ensures
        id1 == c0.next_id_spec(),
        id2 == id1 + 1,
        id2 > id1,
{
}

/// A digit as its label character.
fn digit_char(d: usize) -> (c: char)
    requires
        d < 10,
    ensures
        c == spec_digit_char(d as int),
{
    if d == 0 {
        '0'
    } else if d == 1 {
        '1'
    } else if d == 2 {
        '2'
    } else if d == 3 {
        '3'
    } else if d == 4 {
        '4'
    } else if d == 5 {
        '5'
    } else if d == 6 {
        '6'
    } else if d == 7 {
        '7'
    } else if d == 8 {
        '8'
    } else {
        '9'
    }
}

/// Appends the decimal digits of `n`, most significant first.
fn push_decimal(s: &mut String, n: usize)
    ensures
        final(s)@ == old(s)@ + spec_decimal(n as int),
{
    let mut rev: Vec<char> = Vec::new();
    let mut m: usize = n;
    while m >= 10
        invariant
            spec_decimal(n as int) == spec_decimal(m as int) + rev@.reverse(),
        decreases m,
    {
        let c = digit_char(m % 10);
        proof {
            assert(rev@.push(c).reverse() =~= seq![c] + rev@.reverse());
            assert(spec_decimal(m as int) == spec_decimal(m as int / 10).push(
                spec_digit_char(m as int % 10),
            ));
            assert(spec_decimal(m as int / 10).push(c) + rev@.reverse() =~= spec_decimal(
                m as int / 10,
            ) + rev@.push(c).reverse());
        }
        rev.push(c);
        m = m / 10;
    }
    push_char(s, digit_char(m));
    proof {
        assert(spec_decimal(m as int) =~= seq![spec_digit_char(m as int)]);
    }
    let ghost base = s@;
    let mut i: usize = rev.len();
    while i > 0
        invariant
            i <= rev@.len(),
            s@ == base + rev@.reverse().take(rev@.len() - i),
        decreases i,
    {
        i -= 1;
        push_char(s, rev[i]);
        proof {
            assert(rev@.reverse()[rev@.len() - i - 1] == rev@[i as int]);
            assert(base + rev@.reverse().take(rev@.len() - i) =~= (base + rev@.reverse().take(
                rev@.len() - i - 1,
            )).push(rev@[i as int]));
        }
    }
    proof {
        assert(rev@.reverse().take(rev@.len() as int) =~= rev@.reverse());
        assert(s@ =~= old(s)@ + spec_decimal(n as int));
    }
}

/// Relies on String::push: appends the given character to the end of the
/// string.
#[verifier::external_body]
fn push_char(s: &mut String, c: char)
    ensures
        final(s)@ == old(s)@.push(c),
{
    s.push(c);
}

} // verus!
