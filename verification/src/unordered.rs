//! Unordered-array reconstruction: a decode-time adapter for numeric
//! arrays whose keys arrive out of order or with gaps.
//!
//! [`deserialize_unordered_array`] reads an array as integer-keyed pairs in
//! whatever order the stream carries them, then emits the values in
//! ascending key order as a dense sequence. Missing indices are simply
//! absent from the output, never padded, and a key that appears twice keeps
//! its last value. The primary sequence path never tolerates such keys: it
//! fails with an index mismatch, and this helper is the one place where
//! they are accepted.
//!
//! The reordering itself is the spec function [`reorder`]; the law that its
//! output is strictly key-sorted and keeps exactly the last value written
//! for each key is [`lemma_reorder_props`].

use vstd::prelude::*;

use crate::de::PhpDeserializer;
use crate::error::Error;
use crate::value::{
    encoding, key_encoding, sequence_models, value_model, wf_value, PhpValue, SpecValue,
};

verus! {

/// The keys of an integer-keyed array are machine-sized non-negative
/// integers and its values are well-formed.
pub open spec fn upairs_wf(ps: Seq<(int, SpecValue)>) -> bool {
    forall|i: int|
        0 <= i < ps.len() ==> 0 <= (#[trigger] ps[i]).0 <= i64::MAX && ps[i].0 <= usize::MAX
            && wf_value(ps[i].1)
}

/// The wire form of the pairs `j..` of an integer-keyed array body, in
/// stream order.
pub open spec fn unordered_body(ps: Seq<(int, SpecValue)>, j: int) -> Seq<u8>
    decreases ps.len() - j,
{
    if j < 0 || j >= ps.len() {
        Seq::<u8>::empty()
    } else {
        key_encoding(ps[j].0 as nat) + encoding(ps[j].1) + unordered_body(ps, j + 1)
    }
}

/// The wire form of a whole integer-keyed array, keys in any order.
pub open spec fn unordered_encoding(ps: Seq<(int, SpecValue)>) -> Seq<u8> {
    crate::value::array_open(ps.len()) + unordered_body(ps, 0)
        + seq![crate::digits::BYTE_RBRACE]
}

/// Frames the unread input of an integer-keyed array parse that still has
/// the pairs `j..` to read.
pub open spec fn upairs_frame(ps: Seq<(int, SpecValue)>, j: int, rest: Seq<u8>, s: Seq<u8>) -> bool {
    &&& ps.len() <= usize::MAX
    &&& upairs_wf(ps)
    &&& 0 <= j <= ps.len()
    &&& s == unordered_body(ps, j) + seq![crate::digits::BYTE_RBRACE] + rest
}

/// Inserts a pair into a key-sorted association list, replacing the entry
/// with the same key if there is one.
pub open spec fn insert_sorted(acc: Seq<(int, SpecValue)>, k: int, v: SpecValue) -> Seq<
    (int, SpecValue),
>
    decreases acc.len(),
{
    if acc.len() == 0 {
        seq![(k, v)]
    } else if acc.last().0 < k {
        acc.push((k, v))
    } else if acc.last().0 == k {
        acc.drop_last().push((k, v))
    } else {
        insert_sorted(acc.drop_last(), k, v).push(acc.last())
    }
}

/// Reorders integer-keyed pairs into ascending key order, dropping all but
/// the last value written for each key.
pub open spec fn reorder(ps: Seq<(int, SpecValue)>) -> Seq<(int, SpecValue)>
    decreases ps.len(),
{
    if ps.len() == 0 {
        Seq::<(int, SpecValue)>::empty()
    } else {
        insert_sorted(reorder(ps.drop_last()), ps.last().0, ps.last().1)
    }
}

/// Strictly ascending keys: sorted and duplicate-free.
pub open spec fn sorted_strict(s: Seq<(int, SpecValue)>) -> bool {
    forall|i: int, j: int| 0 <= i < j < s.len() ==> (#[trigger] s[i]).0 < (#[trigger] s[j]).0
}

/// Some pair of `s` carries the key `k`.
pub open spec fn has_key(s: Seq<(int, SpecValue)>, k: int) -> bool {
    exists|i: int| 0 <= i < s.len() && (#[trigger] s[i]).0 == k
}

/// The last value written for key `k`, reading the pairs in stream order.
pub open spec fn last_value(ps: Seq<(int, SpecValue)>, k: int) -> SpecValue
    decreases ps.len(),
{
    if ps.len() == 0 {
        SpecValue::Null
    } else if ps.last().0 == k {
        ps.last().1
    } else {
        last_value(ps.drop_last(), k)
    }
}

/// The values of an association list, in order.
pub open spec fn entry_values(s: Seq<(int, SpecValue)>) -> Seq<SpecValue> {
    s.map_values(|e: (int, SpecValue)| e.1)
}

/// Inserting into a sorted association list keeps it sorted, adds exactly
/// the new key to the key set, stores the new value at the new key, and
/// leaves every other pair as one that was already present.
proof fn lemma_insert_sorted_props(acc: Seq<(int, SpecValue)>, k: int, v: SpecValue)
    requires
        sorted_strict(acc),
    ensures
        sorted_strict(insert_sorted(acc, k, v)),
        forall|q: int|
            #![trigger has_key(insert_sorted(acc, k, v), q)]
            #![trigger has_key(acc, q)]
            has_key(insert_sorted(acc, k, v), q) <==> (has_key(acc, q) || q == k),
        forall|i: int|
            0 <= i < insert_sorted(acc, k, v).len() ==> ((#[trigger] insert_sorted(
                acc,
                k,
                v,
            )[i]).0 == k ==> insert_sorted(acc, k, v)[i].1 == v),
        forall|i: int|
            0 <= i < insert_sorted(acc, k, v).len() ==> (#[trigger] insert_sorted(acc, k, v)[i]).0
                != k ==> exists|j: int|
                0 <= j < acc.len() && acc[j] == insert_sorted(acc, k, v)[i],
        insert_sorted(acc, k, v).len() <= acc.len() + 1,
    decreases acc.len(),
{
    let res = insert_sorted(acc, k, v);
    if acc.len() == 0 {
        assert(forall|q: int| has_key(res, q) ==> res[choose|i: int|
            0 <= i < res.len() && (#[trigger] res[i]).0 == q].0 == q);
        assert(res[0] == (k, v));
        assert(has_key(res, k));
    } else if acc.last().0 < k {
        assert(forall|i: int| 0 <= i < acc.len() - 1 ==> (#[trigger] acc[i]).0 < acc.last().0);
        assert(forall|i: int| 0 <= i < acc.len() ==> #[trigger] res[i] == acc[i]);
        assert(res.last() == (k, v));
        assert(has_key(res, k)) by {
            assert(res[acc.len() as int].0 == k);
        }
        assert forall|q: int| has_key(res, q) implies has_key(acc, q) || q == k by {
            let i = choose|i: int| 0 <= i < res.len() && (#[trigger] res[i]).0 == q;
            if i < acc.len() {
                assert(acc[i].0 == q);
            }
        }
        assert forall|q: int| has_key(acc, q) implies has_key(res, q) by {
            let i = choose|i: int| 0 <= i < acc.len() && (#[trigger] acc[i]).0 == q;
            assert(res[i].0 == q);
        }
    } else if acc.last().0 == k {
        assert(forall|i: int| 0 <= i < acc.len() - 1 ==> (#[trigger] acc[i]).0 < acc.last().0);
        assert(forall|i: int|
            0 <= i < acc.len() - 1 ==> #[trigger] res[i] == acc.drop_last()[i] && res[i]
                == acc[i]);
        assert(res.last() == (k, v));
        assert(has_key(res, k)) by {
            assert(res[acc.len() - 1].0 == k);
        }
        assert forall|q: int| has_key(res, q) implies has_key(acc, q) || q == k by {
            let i = choose|i: int| 0 <= i < res.len() && (#[trigger] res[i]).0 == q;
            if i < acc.len() - 1 {
                assert(acc[i].0 == q);
            }
        }
        assert forall|q: int| has_key(acc, q) implies has_key(res, q) by {
            let i = choose|i: int| 0 <= i < acc.len() && (#[trigger] acc[i]).0 == q;
            if i < acc.len() - 1 {
                assert(res[i].0 == q);
            } else {
                assert(acc[i].0 == k);
                assert(res[acc.len() - 1].0 == q);
            }
        }
    } else {
        let dl = acc.drop_last();
        assert(forall|i: int| 0 <= i < dl.len() ==> #[trigger] dl[i] == acc[i]);
        assert(sorted_strict(dl));
        lemma_insert_sorted_props(dl, k, v);
        let sub = insert_sorted(dl, k, v);
        assert(res == sub.push(acc.last()));
        assert(forall|i: int| 0 <= i < sub.len() ==> #[trigger] res[i] == sub[i]);
        assert(res.last() == acc.last());
        // every key of `sub` is below the last key of `acc`
        assert forall|i: int| 0 <= i < sub.len() implies (#[trigger] sub[i]).0
            < acc.last().0 by {
            assert(has_key(sub, sub[i].0)) by {
                assert(sub[i].0 == sub[i].0);
            }
            if sub[i].0 == k {
            } else {
                let j = choose|j: int| 0 <= j < dl.len() && (#[trigger] dl[j]).0 == sub[i].0;
                assert(dl[j].0 < acc.last().0);
            }
        }
        assert(sorted_strict(res));
        assert forall|q: int| has_key(res, q) implies (has_key(acc, q) || q == k) by {
            let i = choose|i: int| 0 <= i < res.len() && (#[trigger] res[i]).0 == q;
            if i < sub.len() {
                assert(has_key(sub, q)) by {
                    assert(sub[i].0 == q);
                }
                if q != k {
                    let j = choose|j: int| 0 <= j < dl.len() && (#[trigger] dl[j]).0 == q;
                    assert(acc[j].0 == q);
                }
            } else {
                assert(acc[acc.len() - 1].0 == q);
            }
        }
        assert forall|q: int| (has_key(acc, q) || q == k) implies has_key(res, q) by {
            if q == k {
                assert(has_key(sub, k));
                let i = choose|i: int| 0 <= i < sub.len() && (#[trigger] sub[i]).0 == k;
                assert(res[i].0 == k);
            } else {
                let i = choose|i: int| 0 <= i < acc.len() && (#[trigger] acc[i]).0 == q;
                if i < acc.len() - 1 {
                    assert(has_key(dl, q)) by {
                        assert(dl[i].0 == q);
                    }
                    assert(has_key(sub, q));
                    let j = choose|j: int| 0 <= j < sub.len() && (#[trigger] sub[j]).0 == q;
                    assert(res[j].0 == q);
                } else {
                    assert(res[res.len() - 1].0 == q);
                }
            }
        }
        assert forall|i: int|
            0 <= i < res.len() && (#[trigger] res[i]).0 != k implies exists|j: int|
            0 <= j < acc.len() && acc[j] == res[i] by {
            if i < sub.len() {
                let j = choose|j: int| 0 <= j < dl.len() && dl[j] == sub[i];
                assert(acc[j] == res[i]);
            } else {
                assert(acc[acc.len() - 1] == res[i]);
            }
        }
    }
}

/// The reordering law: reordering integer-keyed pairs yields strictly
/// ascending keys (dense in the sense that nothing is padded in), its key
/// set is exactly the key set of the input, and each key keeps the last
/// value written for it in stream order.
pub proof fn lemma_reorder_props(ps: Seq<(int, SpecValue)>)
    ensures
        sorted_strict(reorder(ps)),
        forall|q: int| has_key(reorder(ps), q) <==> has_key(ps, q),
        forall|i: int|
            0 <= i < reorder(ps).len() ==> (#[trigger] reorder(ps)[i]).1 == last_value(
                ps,
                reorder(ps)[i].0,
            ),
        reorder(ps).len() <= ps.len(),
    decreases ps.len(),
{
    if ps.len() == 0 {
        assert(forall|q: int| !has_key(reorder(ps), q));
        assert(forall|q: int| !has_key(ps, q));
    } else {
        let dl = ps.drop_last();
        let k = ps.last().0;
        let v = ps.last().1;
        lemma_reorder_props(dl);
        lemma_insert_sorted_props(reorder(dl), k, v);
        let res = reorder(ps);
        assert(res == insert_sorted(reorder(dl), k, v));
        assert(forall|i: int| 0 <= i < dl.len() ==> #[trigger] dl[i] == ps[i]);
        assert forall|q: int| has_key(res, q) implies has_key(ps, q) by {
            if q == k {
                assert(ps[ps.len() - 1].0 == q);
            } else {
                assert(has_key(reorder(dl), q));
                assert(has_key(dl, q));
                let i = choose|i: int| 0 <= i < dl.len() && (#[trigger] dl[i]).0 == q;
                assert(ps[i].0 == q);
            }
        }
        assert forall|q: int| has_key(ps, q) implies has_key(res, q) by {
            let i = choose|i: int| 0 <= i < ps.len() && (#[trigger] ps[i]).0 == q;
            if i < ps.len() - 1 {
                assert(has_key(dl, q)) by {
                    assert(dl[i].0 == q);
                }
                assert(has_key(reorder(dl), q));
                assert(has_key(res, q));
            } else {
                assert(q == k);
                assert(has_key(res, k));
            }
        }
        assert forall|i: int| 0 <= i < res.len() implies (#[trigger] res[i]).1 == last_value(
            ps,
            res[i].0,
        ) by {
            if res[i].0 == k {
                assert(res[i].1 == v);
            } else {
                let j = choose|j: int|
                    0 <= j < reorder(dl).len() && reorder(dl)[j] == res[i];
                assert(reorder(dl)[j].1 == last_value(dl, reorder(dl)[j].0));
                assert(last_value(ps, res[i].0) == last_value(dl, res[i].0));
            }
        }
    }
}

/// The image of executable integer-keyed pairs.
pub open spec fn upair_models(s: Seq<(usize, PhpValue)>) -> Seq<(int, SpecValue)>
    decreases s,
{
    if s.len() == 0 {
        Seq::<(int, SpecValue)>::empty()
    } else {
        upair_models(s.drop_last()).push((s.last().0 as int, value_model(s.last().1)))
    }
}

/// Pointwise reading of [`upair_models`].
proof fn lemma_upair_models_index(s: Seq<(usize, PhpValue)>)
    ensures
        upair_models(s).len() == s.len(),
        forall|i: int|
            0 <= i < s.len() ==> #[trigger] upair_models(s)[i] == (
                s[i].0 as int,
                value_model(s[i].1),
            ),
    decreases s,
{
    if s.len() > 0 {
        lemma_upair_models_index(s.drop_last());
        assert(forall|i: int|
            0 <= i < s.len() - 1 ==> #[trigger] s.drop_last()[i] == s[i]);
    }
}

/// Inserts a pair into an executable key-sorted association list,
/// replacing an entry with an equal key; mirrors [`insert_sorted`].
fn insert_pair_sorted(acc: &mut Vec<(usize, PhpValue)>, k: usize, v: PhpValue)
    ensures
        upair_models(final(acc)@) == insert_sorted(
            upair_models(old(acc)@),
            k as int,
            value_model(v),
        ),
    decreases old(acc)@.len(),
{
    let ghost ms = upair_models(acc@);
    proof {
        lemma_upair_models_index(acc@);
    }
    if acc.len() == 0 {
        acc.push((k, v));
        proof {
            assert(acc@.drop_last() =~= Seq::<(usize, PhpValue)>::empty());
            assert(acc@.last() == (k, v));
            assert(upair_models(acc@) == upair_models(acc@.drop_last()).push(
                (k as int, value_model(v)),
            ));
            assert(upair_models(Seq::<(usize, PhpValue)>::empty()).push(
                (k as int, value_model(v)),
            ) =~= insert_sorted(ms, k as int, value_model(v)));
        }
    } else {
        let last_key = acc[acc.len() - 1].0;
        proof {
            assert(ms.last().0 == last_key as int);
        }
        if last_key < k {
            acc.push((k, v));
            proof {
                assert(acc@.drop_last() =~= old(acc)@);
                assert(upair_models(acc@) == upair_models(old(acc)@).push(
                    (k as int, value_model(v)),
                ));
            }
        } else if last_key == k {
            let _dropped = acc.pop();
            acc.push((k, v));
            proof {
                assert(acc@.drop_last() =~= old(acc)@.drop_last());
                assert(upair_models(acc@) == upair_models(old(acc)@.drop_last()).push(
                    (k as int, value_model(v)),
                ));
                assert(upair_models(old(acc)@).drop_last() =~= upair_models(
                    old(acc)@.drop_last(),
                )) by {
                    lemma_upair_models_index(old(acc)@.drop_last());
                    assert(forall|i: int|
                        0 <= i < old(acc)@.len() - 1 ==> #[trigger] old(acc)@.drop_last()[i]
                            == old(acc)@[i]);
                }
            }
        } else {
            let popped = match acc.pop() {
                Some(p) => p,
                None => {
                    proof {
                        assert(false);
                    }
                    (0, PhpValue::Null)
                },
            };
            proof {
                assert(acc@ =~= old(acc)@.drop_last());
                assert(upair_models(old(acc)@.drop_last()) =~= ms.drop_last()) by {
                    lemma_upair_models_index(old(acc)@.drop_last());
                    assert(forall|i: int|
                        0 <= i < old(acc)@.len() - 1 ==> #[trigger] old(acc)@.drop_last()[i]
                            == old(acc)@[i]);
                }
            }
            insert_pair_sorted(acc, k, v);
            let ghost mid = acc@;
            acc.push(popped);
            proof {
                assert(acc@.drop_last() =~= mid);
                assert(acc@.last() == popped);
                assert(upair_models(acc@) == upair_models(mid).push(
                    (popped.0 as int, value_model(popped.1)),
                ));
                assert((popped.0 as int, value_model(popped.1)) == ms.last());
                assert(insert_sorted(ms, k as int, value_model(v)) == insert_sorted(
                    ms.drop_last(),
                    k as int,
                    value_model(v),
                ).push(ms.last()));
            }
        }
    }
}

} // verus!

verus! {

/// No value of a reordered or inserted list is new: it is the inserted
/// value or one already present.
proof fn lemma_insert_values_origin(acc: Seq<(int, SpecValue)>, k: int, v: SpecValue)
    ensures
        forall|i: int|
            0 <= i < insert_sorted(acc, k, v).len() ==> (#[trigger] insert_sorted(
                acc,
                k,
                v,
            )[i]).1 == v || exists|j: int|
                0 <= j < acc.len() && (#[trigger] acc[j]).1 == insert_sorted(acc, k, v)[i].1,
    decreases acc.len(),
{
    let res = insert_sorted(acc, k, v);
    if acc.len() == 0 {
    } else if acc.last().0 < k {
        assert(forall|i: int| 0 <= i < acc.len() ==> #[trigger] res[i] == acc[i]);
        assert forall|i: int| 0 <= i < res.len() implies (#[trigger] res[i]).1 == v || exists|
            j: int,
        | 0 <= j < acc.len() && (#[trigger] acc[j]).1 == res[i].1 by {
            if i < acc.len() {
                assert(acc[i].1 == res[i].1);
            }
        }
    } else if acc.last().0 == k {
        assert(forall|i: int| 0 <= i < acc.len() - 1 ==> #[trigger] res[i] == acc[i]);
        assert forall|i: int| 0 <= i < res.len() implies (#[trigger] res[i]).1 == v || exists|
            j: int,
        | 0 <= j < acc.len() && (#[trigger] acc[j]).1 == res[i].1 by {
            if i < acc.len() - 1 {
                assert(acc[i].1 == res[i].1);
            }
        }
    } else {
        let dl = acc.drop_last();
        lemma_insert_values_origin(dl, k, v);
        let sub = insert_sorted(dl, k, v);
        assert(forall|i: int| 0 <= i < sub.len() ==> #[trigger] res[i] == sub[i]);
        assert(forall|i: int| 0 <= i < dl.len() ==> #[trigger] dl[i] == acc[i]);
        assert forall|i: int| 0 <= i < res.len() implies (#[trigger] res[i]).1 == v || exists|
            j: int,
        | 0 <= j < acc.len() && (#[trigger] acc[j]).1 == res[i].1 by {
            if i < sub.len() {
                if sub[i].1 != v {
                    let j = choose|j: int|
                        0 <= j < dl.len() && (#[trigger] dl[j]).1 == sub[i].1;
                    assert(acc[j].1 == res[i].1);
                }
            } else {
                assert(res[i] == acc.last());
                assert(acc[acc.len() - 1].1 == res[i].1);
            }
        }
    }
}

/// Decomposes a canonical unordered-array encoding into its opening and a
/// pair frame.
proof fn lemma_unordered_parts(s: Seq<u8>)
    ensures
        forall|ps: Seq<(int, SpecValue)>|
            ps.len() <= usize::MAX && upairs_wf(ps) && (#[trigger] unordered_encoding(
                ps,
            )).is_prefix_of(s) ==> crate::value::array_open(ps.len()).is_prefix_of(s)
                && upairs_frame(
                ps,
                0,
                s.skip(unordered_encoding(ps).len() as int),
                s.skip(crate::value::array_open(ps.len()).len() as int),
            ),
{
    assert forall|ps: Seq<(int, SpecValue)>|
        ps.len() <= usize::MAX && upairs_wf(ps) && (#[trigger] unordered_encoding(
            ps,
        )).is_prefix_of(s) implies crate::value::array_open(ps.len()).is_prefix_of(s)
        && upairs_frame(
        ps,
        0,
        s.skip(unordered_encoding(ps).len() as int),
        s.skip(crate::value::array_open(ps.len()).len() as int),
    ) by {
        let ue = unordered_encoding(ps);
        let ao = crate::value::array_open(ps.len());
        let body = unordered_body(ps, 0);
        let rest = s.skip(ue.len() as int);
        assert(ue =~= s.take(ue.len() as int));
        assert(s =~= s.take(ue.len() as int) + rest);
        assert(s == ue + rest);
        assert(ue =~= ao + (body + seq![crate::digits::BYTE_RBRACE]));
        assert(ao =~= s.take(ao.len() as int));
        assert(s.skip(ao.len() as int) =~= body + seq![crate::digits::BYTE_RBRACE] + rest);
    }
}

/// Under an unordered frame with pairs left, the input opens with the
/// pair's key encoding followed by its value and the rest of the frame.
proof fn lemma_upairs_frame_step(s: Seq<u8>, p: int)
    ensures
        forall|ps: Seq<(int, SpecValue)>, rest: Seq<u8>|
            #[trigger] upairs_frame(ps, p, rest, s) && p < ps.len() ==> {
                &&& key_encoding(ps[p].0 as nat).is_prefix_of(s)
                &&& encoding(ps[p].1).is_prefix_of(s.skip(key_encoding(ps[p].0 as nat).len() as int))
                &&& upairs_frame(
                    ps,
                    p + 1,
                    rest,
                    s.skip(key_encoding(ps[p].0 as nat).len() as int).skip(
                        encoding(ps[p].1).len() as int,
                    ),
                )
            },
{
    assert forall|ps: Seq<(int, SpecValue)>, rest: Seq<u8>|
        #[trigger] upairs_frame(ps, p, rest, s) && p < ps.len() implies {
        &&& key_encoding(ps[p].0 as nat).is_prefix_of(s)
        &&& encoding(ps[p].1).is_prefix_of(s.skip(key_encoding(ps[p].0 as nat).len() as int))
        &&& upairs_frame(
            ps,
            p + 1,
            rest,
            s.skip(key_encoding(ps[p].0 as nat).len() as int).skip(
                encoding(ps[p].1).len() as int,
            ),
        )
    } by {
        let ke = key_encoding(ps[p].0 as nat);
        let ve = encoding(ps[p].1);
        let tail = unordered_body(ps, p + 1) + seq![crate::digits::BYTE_RBRACE] + rest;
        assert(unordered_body(ps, p) == ke + ve + unordered_body(ps, p + 1));
        assert(s == (ke + ve + unordered_body(ps, p + 1)) + seq![crate::digits::BYTE_RBRACE]
            + rest);
        assert(s =~= ke + (ve + tail));
        assert(ke =~= s.take(ke.len() as int));
        assert(s.skip(ke.len() as int) =~= ve + tail);
        assert(ve =~= s.skip(ke.len() as int).take(ve.len() as int));
        assert(s.skip(ke.len() as int).skip(ve.len() as int) =~= tail);
    }
}

/// An unordered frame with no pairs left is the closing brace and the rest.
proof fn lemma_upairs_frame_end(ps: Seq<(int, SpecValue)>, rest: Seq<u8>, sp: Seq<u8>, j: int)
    requires
        upairs_frame(ps, j, rest, sp),
        j == ps.len(),
    ensures
        sp == seq![crate::digits::BYTE_RBRACE] + rest,
        sp.len() >= 1,
        sp[0] == crate::digits::BYTE_RBRACE,
        sp.skip(1) == rest,
{
    assert(unordered_body(ps, j) == Seq::<u8>::empty());
    assert(sp =~= seq![crate::digits::BYTE_RBRACE] + rest);
    assert(sp.skip(1) =~= rest);
}

/// Helper to deserialize a PHP array whose keys might be out of order.
///
/// The array is read as an integer-keyed mapping, collected by key, and
/// handed back as the values in ascending key order. Holes in the array
/// are not filled in: an array with keys `0`, `2`, `1`, `6` comes back as
/// a dense four-element sequence, and a repeated key keeps its last value.
#[verifier::loop_isolation(false)]
pub fn deserialize_unordered_array(de: &mut PhpDeserializer) -> (r: Result<Vec<PhpValue>, Error>)
    requires
        old(de).wf(),
    ensures
        final(de).wf(),
        final(de).remaining().len() <= old(de).remaining().len(),
        match r {
            Ok(vs) => forall|i: int|
                0 <= i < vs@.len() ==> wf_value(#[trigger] sequence_models(vs@)[i]),
            Err(_) => true,
        },
        forall|ps: Seq<(int, SpecValue)>|
            ps.len() <= usize::MAX && upairs_wf(ps) && (#[trigger] unordered_encoding(
                ps,
            )).is_prefix_of(old(de).remaining()) ==> match r {
                Ok(vs) => sequence_models(vs@) == entry_values(reorder(ps)) && final(de).remaining() == old(de).remaining().skip(unordered_encoding(ps).len() as int),
                Err(_) => false,
            },
{
    let ghost s = old(de).remaining();
    proof {
        lemma_unordered_parts(s);
    }
    let count = match de.begin_array() {
        Ok(c) => c,
        Err(e) => {
            proof {
                assert forall|ps: Seq<(int, SpecValue)>|
                    !(ps.len() <= usize::MAX && upairs_wf(ps) && (
                    #[trigger] unordered_encoding(ps)).is_prefix_of(s)) by {
                    if ps.len() <= usize::MAX && upairs_wf(ps) && unordered_encoding(
                        ps,
                    ).is_prefix_of(s) {
                        assert(false);
                    }
                }
            }
            return Err(e);
        },
    };
    let ghost rh = de.remaining();
    proof {
        assert forall|ps: Seq<(int, SpecValue)>|
            ps.len() <= usize::MAX && upairs_wf(ps) && (#[trigger] unordered_encoding(
                ps,
            )).is_prefix_of(s) implies ps.len() == count && upairs_frame(
            ps,
            0,
            s.skip(unordered_encoding(ps).len() as int),
            rh,
        ) by {
            assert(crate::value::array_open(ps.len()).is_prefix_of(s));
        }
    }
    let mut sorted: Vec<(usize, PhpValue)> = Vec::new();
    let mut j: usize = 0;
    proof {
        assert(upair_models(sorted@) =~= Seq::<(int, SpecValue)>::empty());
        assert(reorder(Seq::<(int, SpecValue)>::empty()) =~= Seq::<(int, SpecValue)>::empty());
    }
    while j < count
        invariant
            de.wf(),
            j <= count,
            de.remaining().len() <= rh.len(),
            forall|i: int|
                0 <= i < upair_models(sorted@).len() ==> wf_value(
                    (#[trigger] upair_models(sorted@)[i]).1,
                ),
            forall|ps: Seq<(int, SpecValue)>, rest: Seq<u8>|
                #[trigger] upairs_frame(ps, 0, rest, rh) && ps.len() == count ==> upair_models(
                    sorted@,
                ) == reorder(ps.take(j as int)) && upairs_frame(ps, j as int, rest, de.remaining()),
        decreases count - j,
    {
        let ghost cur0 = de.remaining();
        let ghost sorted0 = sorted@;
        proof {
            lemma_upairs_frame_step(cur0, j as int);
        }
        let k_i64 = match de.parse_i64() {
            Ok(v) => v,
            Err(e) => {
                proof {
                    assert forall|ps: Seq<(int, SpecValue)>|
                        !(ps.len() <= usize::MAX && upairs_wf(ps) && (
                        #[trigger] unordered_encoding(ps)).is_prefix_of(s)) by {
                        if ps.len() <= usize::MAX && upairs_wf(ps) && unordered_encoding(
                            ps,
                        ).is_prefix_of(s) {
                            let rest = s.skip(unordered_encoding(ps).len() as int);
                            assert(upairs_frame(ps, j as int, rest, cur0));
                            crate::de::lemma_key_is_int_encoding(ps[j as int].0);
                            assert(false);
                        }
                    }
                }
                return Err(e);
            },
        };
        if k_i64 < 0 || (k_i64 as u64) > (usize::MAX as u64) {
            proof {
                assert forall|ps: Seq<(int, SpecValue)>|
                    !(ps.len() <= usize::MAX && upairs_wf(ps) && (
                    #[trigger] unordered_encoding(ps)).is_prefix_of(s)) by {
                    if ps.len() <= usize::MAX && upairs_wf(ps) && unordered_encoding(
                        ps,
                    ).is_prefix_of(s) {
                        let rest = s.skip(unordered_encoding(ps).len() as int);
                        assert(upairs_frame(ps, j as int, rest, cur0));
                        crate::de::lemma_key_is_int_encoding(ps[j as int].0);
                        assert(false);
                    }
                }
            }
            return Err(Error::NotAValidNumber);
        }
        let k = k_i64 as usize;
        let ghost cur1 = de.remaining();
        let v = match de.parse_value() {
            Ok(v) => v,
            Err(e) => {
                proof {
                    assert forall|ps: Seq<(int, SpecValue)>|
                        !(ps.len() <= usize::MAX && upairs_wf(ps) && (
                        #[trigger] unordered_encoding(ps)).is_prefix_of(s)) by {
                        if ps.len() <= usize::MAX && upairs_wf(ps) && unordered_encoding(
                            ps,
                        ).is_prefix_of(s) {
                            let rest = s.skip(unordered_encoding(ps).len() as int);
                            assert(upairs_frame(ps, j as int, rest, cur0));
                            crate::de::lemma_key_is_int_encoding(ps[j as int].0);
                            assert(false);
                        }
                    }
                }
                return Err(e);
            },
        };
        let ghost vm = value_model(v);
        insert_pair_sorted(&mut sorted, k, v);
        proof {
            lemma_insert_values_origin(upair_models(sorted0), k as int, vm);
            assert forall|i: int|
                0 <= i < upair_models(sorted@).len() implies wf_value(
                (#[trigger] upair_models(sorted@)[i]).1,
            ) by {
                if upair_models(sorted@)[i].1 != vm {
                    let q = choose|q: int|
                        0 <= q < upair_models(sorted0).len() && (#[trigger] upair_models(
                            sorted0,
                        )[q]).1 == upair_models(sorted@)[i].1;
                }
            }
            assert forall|ps: Seq<(int, SpecValue)>, rest: Seq<u8>|
                #[trigger] upairs_frame(ps, 0, rest, rh) && ps.len() == count
                implies upair_models(sorted@) == reorder(ps.take(j + 1)) && upairs_frame(
                ps,
                j + 1,
                rest,
                de.remaining(),
            ) by {
                assert(upairs_frame(ps, j as int, rest, cur0));
                crate::de::lemma_key_is_int_encoding(ps[j as int].0);
                assert(k_i64 == ps[j as int].0);
                assert(vm == ps[j as int].1);
                assert(ps.take(j + 1).drop_last() =~= ps.take(j as int));
                assert(ps.take(j + 1).last() == ps[j as int]);
                assert(reorder(ps.take(j + 1)) == insert_sorted(
                    reorder(ps.take(j as int)),
                    ps[j as int].0,
                    ps[j as int].1,
                ));
            }
        }
        j = j + 1;
    }
    let ghost before_close = de.remaining();
    match de.end_array() {
        Ok(()) => {},
        Err(e) => {
            proof {
                assert forall|ps: Seq<(int, SpecValue)>|
                    !(ps.len() <= usize::MAX && upairs_wf(ps) && (
                    #[trigger] unordered_encoding(ps)).is_prefix_of(s)) by {
                    if ps.len() <= usize::MAX && upairs_wf(ps) && unordered_encoding(
                        ps,
                    ).is_prefix_of(s) {
                        let rest = s.skip(unordered_encoding(ps).len() as int);
                        lemma_upairs_frame_end(ps, rest, before_close, count as int);
                        assert(false);
                    }
                }
            }
            return Err(e);
        },
    }
    let ghost fin = de.remaining();
    let ghost init = upair_models(sorted@);
    proof {
        lemma_upair_models_index(sorted@);
    }
    let mut vs: Vec<PhpValue> = Vec::new();
    proof {
        assert(sequence_models(vs@) =~= Seq::<SpecValue>::empty());
        assert(sequence_models(vs@) =~= entry_values(init).take(0));
        assert(upair_models(sorted@) =~= init.skip(0));
    }
    while sorted.len() > 0
        invariant
            vs@.len() + sorted@.len() == init.len(),
            sequence_models(vs@) == entry_values(init).take(vs@.len() as int),
            upair_models(sorted@) == init.skip(vs@.len() as int),
        decreases sorted@.len(),
    {
        let ghost vs0 = vs@;
        let ghost sorted0 = sorted@;
        proof {
            lemma_upair_models_index(sorted0);
        }
        let p = sorted.remove(0);
        vs.push(p.1);
        proof {
            crate::value::lemma_sequence_models_push(vs0, p.1);
            lemma_upair_models_index(sorted@);
            assert(upair_models(sorted@) =~= upair_models(sorted0).skip(1)) by {
                assert(forall|i: int|
                    0 <= i < sorted@.len() ==> #[trigger] sorted@[i] == sorted0[i + 1]);
            }
            assert(upair_models(sorted@) =~= init.skip(vs0.len() as int + 1)) by {
                assert(init.skip(vs0.len() as int).skip(1) =~= init.skip(vs0.len() as int + 1));
            }
            assert((p.0 as int, value_model(p.1)) == init[vs0.len() as int]) by {
                assert(upair_models(sorted0)[0] == (
                    sorted0[0].0 as int,
                    value_model(sorted0[0].1),
                ));
                assert(init.skip(vs0.len() as int)[0] == init[vs0.len() as int]);
            }
            assert(sequence_models(vs@) =~= entry_values(init).take(vs0.len() as int + 1)) by {
                assert(entry_values(init).len() == init.len());
                assert(entry_values(init)[vs0.len() as int] == init[vs0.len() as int].1);
                assert(forall|i: int|
                    0 <= i < vs0.len() ==> #[trigger] entry_values(init).take(vs0.len() as int + 1)[i]
                        == entry_values(init).take(vs0.len() as int)[i]);
                assert(entry_values(init).take(vs0.len() as int + 1)[vs0.len() as int]
                    == entry_values(init)[vs0.len() as int]);
            }
        }
    }
    proof {
        assert(sequence_models(vs@) == entry_values(init).take(init.len() as int));
        assert(entry_values(init).take(init.len() as int) =~= entry_values(init));
        assert forall|i: int| 0 <= i < vs@.len() implies wf_value(
            #[trigger] sequence_models(vs@)[i],
        ) by {
            assert(entry_values(init)[i] == init[i].1);
        }
        assert forall|ps: Seq<(int, SpecValue)>|
            ps.len() <= usize::MAX && upairs_wf(ps) && (#[trigger] unordered_encoding(
                ps,
            )).is_prefix_of(s) implies sequence_models(vs@) == entry_values(reorder(ps)) && fin
            == s.skip(unordered_encoding(ps).len() as int) by {
            let rest = s.skip(unordered_encoding(ps).len() as int);
            assert(upairs_frame(ps, 0, rest, rh));
            assert(ps.take(count as int) =~= ps);
            assert(init == reorder(ps));
            lemma_upairs_frame_end(ps, rest, before_close, count as int);
        }
    }
    Ok(vs)
}

} // verus!
