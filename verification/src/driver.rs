//! Feeding a counter from a buffer: all of it, or what follows the marker.

use crate::process::Process;
use vstd::prelude::*;

verus! {

/// The byte after which the counted part of an input begins: a full stop.
pub const MARKER: u8 = 0x2e;

/// What follows the first marker in `data`; nothing if it holds none.
pub open spec fn after_marker(data: Seq<u8>) -> Seq<u8>
    decreases data.len(),
{
    if data.len() == 0 {
        data
    } else if data[0] == MARKER {
        data.drop_first()
    } else {
        after_marker(data.drop_first())
    }
}

/// Where the first marker stands in `data`, if it holds one.
pub fn find_marker(data: &[u8]) -> (found: Option<usize>)
    ensures
        match found {
            Some(at) => {
                &&& at < data@.len() <= usize::MAX
                &&& data@[at as int] == MARKER
                &&& forall|j: int| 0 <= j < at ==> data@[j] != MARKER
                &&& after_marker(data@) == data@.subrange(at + 1, data@.len() as int)
            },
            None => {
                &&& !data@.contains(MARKER)
                &&& after_marker(data@) == Seq::<u8>::empty()
            },
        },
{
    let mut i: usize = 0;
    proof {
        assert(data@.subrange(0, data@.len() as int) =~= data@);
    }
    while i < data.len()
        invariant
            i <= data@.len(),
            forall|j: int| 0 <= j < i ==> data@[j] != MARKER,
            after_marker(data@) == after_marker(data@.subrange(i as int, data@.len() as int)),
        decreases data@.len() - i,
    {
        let ghost rest = data@.subrange(i as int, data@.len() as int);
        proof {
            assert(rest[0] == data@[i as int]);
            assert(rest.drop_first() =~= data@.subrange(i + 1, data@.len() as int));
        }
        if data[i] == MARKER {
            return Some(i);
        }
        i += 1;
    }
    proof {
        assert(data@.subrange(i as int, data@.len() as int) =~= Seq::<u8>::empty());
    }
    None
}

/// The position after the first marker in `data`; the length of `data` if
/// it holds none.
pub fn skip_marker(data: &[u8]) -> (start: usize)
    ensures
        start <= data@.len(),
        data@.subrange(start as int, data@.len() as int) == after_marker(data@),
{
    match find_marker(data) {
        Some(at) => at + 1,
        None => {
            proof {
                assert(data@.subrange(data@.len() as int, data@.len() as int) =~= Seq::<u8>::empty());
            }
            data.len()
        },
    }
}

/// What follows the first marker in two buffers, one after the other, is
/// what follows it in the first and all of the second, or what follows it
/// in the second if the first holds none.
pub proof fn lemma_after_marker_split(first: Seq<u8>, second: Seq<u8>)
    ensures
        after_marker(first + second) == (if first.contains(MARKER) {
            after_marker(first) + second
        } else {
            after_marker(second)
        }),
    decreases first.len(),
{
    if first.len() == 0 {
        assert(first + second =~= second);
    } else {
        let rest = first.drop_first();
        assert((first + second).drop_first() =~= rest + second);
        if first[0] == MARKER {
            assert(first.contains(MARKER));
        } else {
            lemma_after_marker_split(rest, second);
            if rest.contains(MARKER) {
                let at = choose|at: int| 0 <= at < rest.len() && rest[at] == MARKER;
                assert(first[at + 1] == MARKER);
            }
            if first.contains(MARKER) {
                let at = choose|at: int| 0 <= at < first.len() && first[at] == MARKER;
                assert(rest[at - 1] == MARKER);
            }
        }
    }
}

/// Feeds `imp` the bytes of `data` from position `start` on.
fn feed_from<P: Process>(imp: &mut P, data: &[u8], start: usize)
    requires
        old(imp).inv(),
        !old(imp).finalized(),
        start <= data@.len(),
        old(imp).consumed().len() + data@.len() - start <= u64::MAX,
    ensures
        final(imp).inv(),
        !final(imp).finalized(),
        final(imp).digits() == old(imp).digits(),
        final(imp).consumed() == old(imp).consumed() + data@.subrange(
            start as int,
            data@.len() as int,
        ),
{
    let ghost fed = imp.consumed();
    let mut i: usize = start;
    proof {
        assert(fed + data@.subrange(start as int, i as int) =~= fed);
    }
    while i < data.len()
        invariant
            start <= i <= data@.len(),
            imp.inv(),
            !imp.finalized(),
            imp.digits() == old(imp).digits(),
            fed == old(imp).consumed(),
            fed.len() + data@.len() - start <= u64::MAX,
            imp.consumed() == fed + data@.subrange(start as int, i as int),
        decreases data@.len() - i,
    {
        imp.on_byte(data[i]);
        proof {
            assert(data@.subrange(start as int, i + 1) =~= data@.subrange(
                start as int,
                i as int,
            ).push(data@[i as int]));
            assert(imp.consumed() =~= fed + data@.subrange(start as int, i + 1));
        }
        i += 1;
    }
}

/// Feeds `imp` all of `data`.
pub fn feed<P: Process>(imp: &mut P, data: &[u8])
    requires
        old(imp).inv(),
        !old(imp).finalized(),
        old(imp).consumed().len() + data@.len() <= u64::MAX,
    ensures
        final(imp).inv(),
        !final(imp).finalized(),
        final(imp).digits() == old(imp).digits(),
        final(imp).consumed() == old(imp).consumed() + data@,
{
    feed_from(imp, data, 0);
    proof {
        assert(data@.subrange(0, data@.len() as int) =~= data@);
    }
}

/// Feeds `imp` what follows the first marker in `data`.
pub fn main_loop<P: Process>(imp: &mut P, data: &[u8])
    requires
        old(imp).inv(),
        !old(imp).finalized(),
        old(imp).consumed().len() + data@.len() <= u64::MAX,
    ensures
        final(imp).inv(),
        !final(imp).finalized(),
        final(imp).digits() == old(imp).digits(),
        final(imp).consumed() == old(imp).consumed() + after_marker(data@),
{
    let start: usize = skip_marker(data);
    feed_from(imp, data, start);
}

/// Feeds a counter an input that comes buffer by buffer: nothing up to the
/// first marker, and everything after it.
pub struct Driver {
    /// Whether the marker was passed.
    pub started: bool,
}

impl Driver {
    /// A driver that has not seen the marker.
    pub fn new() -> (driver: Self)
        ensures
            !driver.started,
    {
        Driver { started: false }
    }

    /// Feeds `imp` the next buffer of the input: all of it if the marker was
    /// passed before, else what follows the marker in it.
    pub fn push<P: Process>(&mut self, imp: &mut P, chunk: &[u8])
        requires
            old(imp).inv(),
            !old(imp).finalized(),
            old(imp).consumed().len() + chunk@.len() <= u64::MAX,
        ensures
            final(imp).inv(),
            !final(imp).finalized(),
            final(imp).digits() == old(imp).digits(),
            final(imp).consumed() == old(imp).consumed() + (if old(self).started {
                chunk@
            } else {
                after_marker(chunk@)
            }),
            final(self).started == (old(self).started || chunk@.contains(MARKER)),
    {
        if self.started {
            feed(imp, chunk);
        } else {
            match find_marker(chunk) {
                Some(at) => {
                    feed_from(imp, chunk, at + 1);
                    self.started = true;
                },
                None => {
                    proof {
                        assert(imp.consumed() + Seq::<u8>::empty() =~= imp.consumed());
                    }
                },
            }
        }
    }
}

} // verus!
