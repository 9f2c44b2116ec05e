//! Run-length encoding of a sequence: maximal runs of equal values become
//! `(value, count)` pairs.

use vstd::prelude::*;

verus! {

/// Expansion of an encoding back into the sequence it stands for.
pub open spec fn rle_decode(enc: Seq<(i64, usize)>) -> Seq<i64>
    decreases enc.len(),
{
    if enc.len() == 0 {
        Seq::empty()
    } else {
        rle_decode(enc.drop_last()) + Seq::new(enc.last().1 as nat, |q: int| enc.last().0)
    }
}

/// An encoding is canonical when every run is non-empty and neighbouring
/// runs hold different values.
pub open spec fn rle_canonical(enc: Seq<(i64, usize)>) -> bool {
    &&& forall|k: int| 0 <= k < enc.len() ==> (#[trigger] enc[k]).1 >= 1
    &&& forall|k: int| 0 <= k && k + 1 < enc.len() ==> (#[trigger] enc[k]).0 != enc[k + 1].0
}

/// Run-length encoding: the unique canonical list of `(value, count)` pairs
/// that decodes back to the input. The input must hold at least one value.
#[verifier::loop_isolation(false)]
pub fn run_length_encoding(s: Vec<i64>) -> (enc: Vec<(i64, usize)>)
    requires
        s@.len() >= 1,
    ensures
        rle_decode(enc@) == s@,
        rle_canonical(enc@),
{
    let mut tmp = s[0];
    let mut cnt: usize = 0;
    let mut encode: Vec<(i64, usize)> = Vec::new();
    let mut i: usize = 0;
    while i < s.len()
        invariant
            i <= s@.len(),
            // everything before the current run is already encoded
            rle_decode(encode@) + Seq::new(cnt as nat, |q: int| tmp) =~= s@.subrange(0, i as int),
            rle_canonical(encode@),
            cnt <= i,
            i > 0 ==> cnt >= 1 && tmp == s@[i - 1],
            i == 0 ==> cnt == 0 && tmp == s@[0],
            encode@.len() > 0 ==> cnt >= 1 && encode@.last().0 != tmp,
        decreases s@.len() - i,
    {
        let si = s[i];
        if tmp == si {
            cnt += 1;
            proof {
                assert(rle_decode(encode@) + Seq::new(cnt as nat, |q: int| tmp) =~= s@.subrange(
                    0,
                    i + 1,
                ));
            }
        } else {
            let ghost enc0 = encode@;
            encode.push((tmp, cnt));
            proof {
                assert(encode@.drop_last() =~= enc0);
                assert(rle_decode(encode@) == rle_decode(enc0) + Seq::new(cnt as nat, |q: int| tmp));
                assert(rle_decode(encode@) + Seq::new(1nat, |q: int| si) =~= s@.subrange(
                    0,
                    i + 1,
                ));
                assert forall|k: int| 0 <= k < encode@.len() implies (#[trigger] encode@[k]).1
                    >= 1 by {
                    if k < enc0.len() {
                        assert(encode@[k] == enc0[k]);
                    }
                }
                assert forall|k: int| 0 <= k && k + 1 < encode@.len() implies (#[trigger] encode@[k]).0
                    != encode@[k + 1].0 by {
                    if k + 1 < enc0.len() {
                        assert(encode@[k] == enc0[k] && encode@[k + 1] == enc0[k + 1]);
                    } else {
                        assert(encode@[k] == enc0[k] && enc0[k] == enc0.last());
                    }
                }
            }
            tmp = si;
            cnt = 1;
        }
        i += 1;
    }
    let ghost enc0 = encode@;
    encode.push((tmp, cnt));
    proof {
        assert(encode@.drop_last() =~= enc0);
        assert(rle_decode(encode@) == rle_decode(enc0) + Seq::new(cnt as nat, |q: int| tmp));
        assert(s@.subrange(0, s@.len() as int) =~= s@);
        assert(rle_decode(encode@) =~= s@);
        assert forall|k: int| 0 <= k < encode@.len() implies (#[trigger] encode@[k]).1
            >= 1 by {
            if k < enc0.len() {
                assert(encode@[k] == enc0[k]);
            }
        }
        assert forall|k: int| 0 <= k && k + 1 < encode@.len() implies (#[trigger] encode@[k]).0
            != encode@[k + 1].0 by {
            if k + 1 < enc0.len() {
                assert(encode@[k] == enc0[k] && encode@[k + 1] == enc0[k + 1]);
            } else {
                assert(encode@[k] == enc0[k] && enc0[k] == enc0.last());
            }
        }
    }
    encode
}

} // verus!
