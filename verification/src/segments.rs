//! Splitting byte buffers into segments and fields.
//!
//! HL7 messages are byte text: segments separated by line endings, fields
//! separated by a per-message separator byte. Both splitting flavours used by
//! the protocol live here: one that discards empty chunks (segment
//! extraction) and one that keeps them (field extraction).

use vstd::prelude::*;

verus! {

/// Chunks of `s` delimited by any byte of `delims`, empty chunks discarded,
/// order preserved. `cur` is the chunk accumulated so far.
pub open spec fn split_dropping_empty_from(
    delims: Seq<u8>,
    s: Seq<u8>,
    cur: Seq<u8>,
) -> Seq<Seq<u8>>
    decreases s.len(),
{
    if s.len() == 0 {
        if cur.len() == 0 {
            Seq::empty()
        } else {
            seq![cur]
        }
    } else if delims.contains(s[0]) {
        if cur.len() == 0 {
            split_dropping_empty_from(delims, s.skip(1), Seq::empty())
        } else {
            seq![cur] + split_dropping_empty_from(delims, s.skip(1), Seq::empty())
        }
    } else {
        split_dropping_empty_from(delims, s.skip(1), cur.push(s[0]))
    }
}

/// The non-empty chunks of `s` delimited by any byte of `delims`, in order.
pub open spec fn split_dropping_empty(delims: Seq<u8>, s: Seq<u8>) -> Seq<Seq<u8>> {
    split_dropping_empty_from(delims, s, Seq::empty())
}

/// Chunks of `s` delimited by the single byte `sep`, empty chunks kept, as
/// `str::split` yields them: splitting the empty sequence gives one empty
/// chunk. `cur` is the chunk accumulated so far.
pub open spec fn split_keeping_empty_from(sep: u8, s: Seq<u8>, cur: Seq<u8>) -> Seq<Seq<u8>>
    decreases s.len(),
{
    if s.len() == 0 {
        seq![cur]
    } else if s[0] == sep {
        seq![cur] + split_keeping_empty_from(sep, s.skip(1), Seq::empty())
    } else {
        split_keeping_empty_from(sep, s.skip(1), cur.push(s[0]))
    }
}

/// All chunks of `s` delimited by `sep`, empty ones included, in order.
pub open spec fn split_keeping_empty(sep: u8, s: Seq<u8>) -> Seq<Seq<u8>> {
    split_keeping_empty_from(sep, s, Seq::empty())
}

/// Splitting while keeping empty chunks always yields at least one chunk.
pub proof fn lemma_split_keeping_len(sep: u8, s: Seq<u8>, cur: Seq<u8>)
    ensures
        split_keeping_empty_from(sep, s, cur).len() >= 1,
    decreases s.len(),
{
    if s.len() == 0 {
    } else if s[0] == sep {
    } else {
        lemma_split_keeping_len(sep, s.skip(1), cur.push(s[0]));
    }
}

/// Splitting consumes a delimiter-free chunk whole: the chunk moves into the
/// accumulator and splitting continues on the remainder.
pub proof fn lemma_split_consumes_chunk(delims: Seq<u8>, c: Seq<u8>, rest: Seq<u8>, cur: Seq<u8>)
    requires
        forall|j: int| 0 <= j < c.len() ==> !delims.contains(#[trigger] c[j]),
    ensures
        split_dropping_empty_from(delims, c + rest, cur) == split_dropping_empty_from(
            delims,
            rest,
            cur + c,
        ),
    decreases c.len(),
{
    if c.len() == 0 {
        assert(c + rest =~= rest);
        assert(cur + c =~= cur);
    } else {
        assert((c + rest)[0] == c[0]);
        assert((c + rest).skip(1) =~= c.skip(1) + rest);
        assert forall|j: int| 0 <= j < c.skip(1).len() implies !delims.contains(
            #[trigger] c.skip(1)[j],
        ) by {
            assert(c.skip(1)[j] == c[j + 1]);
        }
        lemma_split_consumes_chunk(delims, c.skip(1), rest, cur.push(c[0]));
        assert(cur.push(c[0]) + c.skip(1) =~= cur + c);
    }
}

/// The deep view of a byte vector is its plain view.
pub proof fn lemma_bytes_deep_view(v: Vec<u8>)
    ensures
        v.deep_view() == v@,
{
    assert(v.deep_view() =~= v@);
}

/// Whether `b` occurs in `delims`.
fn byte_in(delims: &[u8], b: u8) -> (r: bool)
    ensures
        r == delims@.contains(b),
{
    let mut i: usize = 0;
    while i < delims.len()
        invariant
            i <= delims@.len(),
            forall|j: int| 0 <= j < i ==> delims@[j] != b,
        decreases delims@.len() - i,
    {
        if delims[i] == b {
            return true;
        }
        i += 1;
    }
    false
}

/// Split `s` on any byte of `delims`, discarding empty chunks.
pub fn split_dropping_empty_exec(delims: &[u8], s: &[u8]) -> (r: Vec<Vec<u8>>)
    ensures
        r.deep_view() == split_dropping_empty(delims@, s@),
{
    let mut done: Vec<Vec<u8>> = Vec::new();
    let mut cur: Vec<u8> = Vec::new();
    let mut i: usize = 0;
    proof {
        assert(s@.skip(0) =~= s@);
        assert(done.deep_view() =~= Seq::<Seq<u8>>::empty());
        assert(done.deep_view() + split_dropping_empty_from(delims@, s@.skip(0), cur@)
            =~= split_dropping_empty_from(delims@, s@, cur@));
    }
    while i < s.len()
        invariant
            i <= s@.len(),
            done.deep_view() + split_dropping_empty_from(delims@, s@.skip(i as int), cur@)
                == split_dropping_empty(delims@, s@),
        decreases s@.len() - i,
    {
        proof {
            assert(s@.skip(i as int).skip(1) =~= s@.skip(i + 1));
            assert(s@.skip(i as int)[0] == s@[i as int]);
        }
        let b = s[i];
        if byte_in(delims, b) {
            if cur.len() > 0 {
                let ghost prev = done.deep_view();
                let ghost curv = cur@;
                done.push(cur);
                cur = Vec::new();
                proof {
                    lemma_bytes_deep_view(done@[done@.len() - 1]);
                    assert(done.deep_view() =~= prev.push(curv));
                    assert(prev.push(curv) + split_dropping_empty_from(
                        delims@,
                        s@.skip(i + 1),
                        Seq::empty(),
                    ) =~= prev + (seq![curv] + split_dropping_empty_from(
                        delims@,
                        s@.skip(i + 1),
                        Seq::empty(),
                    )));
                }
            } else {
                proof {
                    assert(cur@ =~= Seq::<u8>::empty());
                }
            }
        } else {
            cur.push(b);
        }
        i += 1;
    }
    proof {
        assert(s@.skip(i as int) =~= Seq::<u8>::empty());
    }
    if cur.len() > 0 {
        let ghost prev = done.deep_view();
        let ghost curv = cur@;
        done.push(cur);
        proof {
            lemma_bytes_deep_view(done@[done@.len() - 1]);
            assert(done.deep_view() =~= prev.push(curv));
            assert(prev.push(curv) =~= prev + seq![curv]);
        }
    } else {
        proof {
            assert(cur@ =~= Seq::<u8>::empty());
            assert(done.deep_view() + Seq::<Seq<u8>>::empty() =~= done.deep_view());
        }
    }
    done
}

/// Split `s` on the byte `sep`, keeping empty chunks.
pub fn split_keeping_empty_exec(sep: u8, s: &[u8]) -> (r: Vec<Vec<u8>>)
    ensures
        r.deep_view() == split_keeping_empty(sep, s@),
{
    let mut done: Vec<Vec<u8>> = Vec::new();
    let mut cur: Vec<u8> = Vec::new();
    let mut i: usize = 0;
    proof {
        assert(s@.skip(0) =~= s@);
        assert(done.deep_view() =~= Seq::<Seq<u8>>::empty());
        assert(done.deep_view() + split_keeping_empty_from(sep, s@.skip(0), cur@)
            =~= split_keeping_empty_from(sep, s@, cur@));
    }
    while i < s.len()
        invariant
            i <= s@.len(),
            done.deep_view() + split_keeping_empty_from(sep, s@.skip(i as int), cur@)
                == split_keeping_empty(sep, s@),
        decreases s@.len() - i,
    {
        proof {
            assert(s@.skip(i as int).skip(1) =~= s@.skip(i + 1));
            assert(s@.skip(i as int)[0] == s@[i as int]);
        }
        let b = s[i];
        if b == sep {
            let ghost prev = done.deep_view();
            let ghost curv = cur@;
            done.push(cur);
            cur = Vec::new();
            proof {
                lemma_bytes_deep_view(done@[done@.len() - 1]);
                assert(done.deep_view() =~= prev.push(curv));
                assert(prev.push(curv) + split_keeping_empty_from(sep, s@.skip(i + 1), Seq::empty())
                    =~= prev + (seq![curv] + split_keeping_empty_from(
                    sep,
                    s@.skip(i + 1),
                    Seq::empty(),
                )));
            }
        } else {
            cur.push(b);
        }
        i += 1;
    }
    proof {
        assert(s@.skip(i as int) =~= Seq::<u8>::empty());
    }
    let ghost prev = done.deep_view();
    let ghost curv = cur@;
    done.push(cur);
    proof {
        lemma_bytes_deep_view(done@[done@.len() - 1]);
        assert(done.deep_view() =~= prev.push(curv));
        assert(prev.push(curv) =~= prev + seq![curv]);
    }
    done
}

} // verus!
