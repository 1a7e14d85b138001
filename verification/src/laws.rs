//! The engine's cross-function guarantees, stated and proved over the
//! models that the orchestrators' contracts speak of: what a finished
//! dump's archive holds, and what a store holds after populate replays
//! it.
use vstd::prelude::*;

use crate::codec::{encode_archive, zeros};
use crate::sync::{apply_outcomes, dump_outcomes_wf, outcome_keys, success_pairs, Outcome};

verus! {

/// The names of a run of (name, payload) pairs, in order.
pub open spec fn pair_names(es: Seq<(Seq<u8>, Seq<u8>)>) -> Seq<Seq<u8>> {
    es.map_values(|e: (Seq<u8>, Seq<u8>)| e.0)
}

/// The map after storing every pair in order, later pairs winning.
pub open spec fn insert_pairs(m: Map<Seq<u8>, Seq<u8>>, es: Seq<(Seq<u8>, Seq<u8>)>) -> Map<
    Seq<u8>,
    Seq<u8>,
>
    decreases es.len(),
{
    if es.len() == 0 {
        m
    } else {
        insert_pairs(m, es.drop_last()).insert(es.last().0, es.last().1)
    }
}

/// The payload of the last pair named `k`, if any pair is.
pub open spec fn last_value(es: Seq<(Seq<u8>, Seq<u8>)>, k: Seq<u8>) -> Option<Seq<u8>>
    decreases es.len(),
{
    if es.len() == 0 {
        Option::None
    } else if es.last().0 == k {
        Option::Some(es.last().1)
    } else {
        last_value(es.drop_last(), k)
    }
}

proof fn lemma_contains_push<A>(s: Seq<A>, e: A, x: A)
    ensures
        s.push(e).contains(x) <==> s.contains(x) || x == e,
{
    if s.push(e).contains(x) {
        let i = choose|i: int| 0 <= i < s.push(e).len() && s.push(e)[i] == x;
        if i < s.len() {
            assert(s[i] == x);
        }
    }
    if s.contains(x) {
        let i = choose|i: int| 0 <= i < s.len() && s[i] == x;
        assert(s.push(e)[i] == x);
    }
    if x == e {
        assert(s.push(e)[s.len() as int] == x);
    }
}

/// A run of puts in which every put succeeds stores exactly its pairs, in
/// order.
proof fn lemma_apply_all_success(
    m: Map<Seq<u8>, Seq<u8>>,
    es: Seq<(Seq<u8>, Seq<u8>)>,
    os: Seq<Outcome>,
)
    requires
        os.len() == es.len(),
        forall|i: int| 0 <= i < os.len() ==> (#[trigger] os[i]) is Success,
    ensures
        apply_outcomes(m, es, os) == insert_pairs(m, es),
    decreases os.len(),
{
    if os.len() > 0 {
        assert(forall|i: int|
            0 <= i < os.drop_last().len() ==> (#[trigger] os.drop_last()[i]) is Success);
        lemma_apply_all_success(m, es.drop_last(), os.drop_last());
        assert(os.last() == os[os.len() - 1]);
    }
}

/// What `insert_pairs` gives each key: the payload of the last pair with
/// that name, or what the base map had.
proof fn lemma_insert_pairs_char(m: Map<Seq<u8>, Seq<u8>>, es: Seq<(Seq<u8>, Seq<u8>)>)
    ensures
        forall|k: Seq<u8>|
            match #[trigger] last_value(es, k) {
                Option::Some(v) => insert_pairs(m, es).contains_key(k) && insert_pairs(m, es)[k]
                    == v,
                Option::None => (insert_pairs(m, es).dom().contains(k) <==> m.dom().contains(k))
                    && (m.contains_key(k) ==> insert_pairs(m, es)[k] == m[k]),
            },
    decreases es.len(),
{
    if es.len() > 0 {
        lemma_insert_pairs_char(m, es.drop_last());
        assert forall|k: Seq<u8>|
            match #[trigger] last_value(es, k) {
                Option::Some(v) => insert_pairs(m, es).contains_key(k) && insert_pairs(m, es)[k]
                    == v,
                Option::None => (insert_pairs(m, es).dom().contains(k) <==> m.dom().contains(k))
                    && (m.contains_key(k) ==> insert_pairs(m, es)[k] == m[k]),
            } by {
            let prev = last_value(es.drop_last(), k);
            assert(prev == last_value(es.drop_last(), k));
        }
    }
}

/// When every pair's payload is what the model `m` stores under its name,
/// the last value of a name is `m`'s value exactly for the names present.
proof fn lemma_last_value_consistent(es: Seq<(Seq<u8>, Seq<u8>)>, m: Map<Seq<u8>, Seq<u8>>)
    requires
        forall|i: int| 0 <= i < es.len() ==> (#[trigger] es[i]).1 == m[es[i].0],
    ensures
        forall|k: Seq<u8>|
            #[trigger] last_value(es, k) == if pair_names(es).contains(k) {
                Option::Some(m[k])
            } else {
                Option::<Seq<u8>>::None
            },
    decreases es.len(),
{
    if es.len() > 0 {
        assert(forall|i: int|
            0 <= i < es.drop_last().len() ==> (#[trigger] es.drop_last()[i]).1 == m[es.drop_last()[
                i
            ].0]);
        lemma_last_value_consistent(es.drop_last(), m);
        assert(es.last() == es[es.len() - 1]);
        assert forall|k: Seq<u8>|
            #[trigger] last_value(es, k) == if pair_names(es).contains(k) {
                Option::Some(m[k])
            } else {
                Option::<Seq<u8>>::None
            } by {
            assert(pair_names(es) =~= pair_names(es.drop_last()).push(es.last().0));
            lemma_contains_push(pair_names(es.drop_last()), es.last().0, k);
            if es.last().0 == k {
                assert(es[es.len() - 1].1 == m[es[es.len() - 1].0]);
            } else {
                assert(last_value(es.drop_last(), k) == if pair_names(es.drop_last()).contains(k) {
                    Option::Some(m[k])
                } else {
                    Option::<Seq<u8>>::None
                });
            }
        }
    }
}

/// In a dump in which every fetch succeeded, the archive's pairs are one
/// per outcome, in order: each outcome's key with the store's payload for
/// it.
proof fn lemma_success_pairs_all(os: Seq<Outcome>, m: Map<Seq<u8>, Seq<u8>>)
    requires
        forall|i: int| 0 <= i < os.len() ==> (#[trigger] os[i]) is Success,
    ensures
        success_pairs(os, m).len() == os.len(),
        forall|i: int|
            0 <= i < os.len() ==> #[trigger] success_pairs(os, m)[i] == (
                os[i].key_view(),
                m[os[i].key_view()],
            ),
    decreases os.len(),
{
    if os.len() > 0 {
        assert(forall|i: int|
            0 <= i < os.drop_last().len() ==> (#[trigger] os.drop_last()[i]) is Success);
        lemma_success_pairs_all(os.drop_last(), m);
        assert(os.last() == os[os.len() - 1]);
    }
}

/// Order preservation: in a dump in which every fetch succeeded, the
/// archive's entry names are exactly the listed keys, in listing order.
pub proof fn lemma_dump_preserves_order(os: Seq<Outcome>, m: Map<Seq<u8>, Seq<u8>>)
    requires
        forall|i: int| 0 <= i < os.len() ==> (#[trigger] os[i]) is Success,
    ensures
        pair_names(success_pairs(os, m)) == outcome_keys(os),
{
    lemma_success_pairs_all(os, m);
    assert(pair_names(success_pairs(os, m)) =~= outcome_keys(os));
}

/// Partial-failure isolation: whatever failed, the archive's entry names
/// are exactly the successful outcomes' keys, in outcome order.
pub proof fn lemma_archive_names_are_successes(os: Seq<Outcome>, m: Map<Seq<u8>, Seq<u8>>)
    ensures
        pair_names(success_pairs(os, m)) == outcome_keys(
            os.filter(|o: Outcome| o is Success),
        ),
    decreases os.len(),
{
    reveal(Seq::filter);
    if os.len() > 0 {
        lemma_archive_names_are_successes(os.drop_last(), m);
        assert(os.filter(|o: Outcome| o is Success) == if os.last() is Success {
            os.drop_last().filter(|o: Outcome| o is Success).push(os.last())
        } else {
            os.drop_last().filter(|o: Outcome| o is Success)
        });
        if os.last() is Success {
            assert(pair_names(success_pairs(os, m)) =~= pair_names(
                success_pairs(os.drop_last(), m),
            ).push(os.last().key_view()));
            assert(outcome_keys(
                os.drop_last().filter(|o: Outcome| o is Success).push(os.last()),
            ) =~= outcome_keys(os.drop_last().filter(|o: Outcome| o is Success)).push(
                os.last().key_view(),
            ));
        } else {
            assert(pair_names(success_pairs(os, m)) =~= pair_names(
                success_pairs(os.drop_last(), m),
            ));
        }
    } else {
        assert(pair_names(success_pairs(os, m)) =~= outcome_keys(
            os.filter(|o: Outcome| o is Success),
        ));
    }
}

/// Round-trip: take any bucket model `m`, dump it with every fetch
/// succeeding, and replay the archive's pairs into an empty bucket with
/// every upload succeeding: the result is exactly `m` again.
pub proof fn lemma_dump_populate_round_trip(
    os_d: Seq<Outcome>,
    m: Map<Seq<u8>, Seq<u8>>,
    os_p: Seq<Outcome>,
)
    requires
        dump_outcomes_wf(os_d, m),
        forall|i: int| 0 <= i < os_d.len() ==> (#[trigger] os_d[i]) is Success,
        os_p.len() == success_pairs(os_d, m).len(),
        forall|i: int| 0 <= i < os_p.len() ==> (#[trigger] os_p[i]) is Success,
    ensures
        apply_outcomes(Map::empty(), success_pairs(os_d, m), os_p) == m,
{
    let es = success_pairs(os_d, m);
    let empty = Map::<Seq<u8>, Seq<u8>>::empty();
    lemma_success_pairs_all(os_d, m);
    lemma_apply_all_success(empty, es, os_p);
    assert(forall|i: int| 0 <= i < es.len() ==> (#[trigger] es[i]).1 == m[es[i].0]);
    lemma_last_value_consistent(es, m);
    lemma_insert_pairs_char(empty, es);
    assert(pair_names(es) =~= outcome_keys(os_d));
    assert forall|k: Seq<u8>|
        insert_pairs(empty, es).dom().contains(k) <==> #[trigger] m.dom().contains(k) by {
        assert(last_value(es, k) == if pair_names(es).contains(k) {
            Option::Some(m[k])
        } else {
            Option::<Seq<u8>>::None
        });
        assert(outcome_keys(os_d).contains(k) <==> m.dom().contains(k));
    }
    assert forall|k: Seq<u8>| #[trigger]
        m.dom().contains(k) implies insert_pairs(empty, es)[k] == m[k] by {
        assert(pair_names(es).contains(k));
        assert(last_value(es, k) == Option::Some(m[k]));
    }
    assert(insert_pairs(empty, es) =~= m);
}

/// Idempotent re-populate: replaying the same archive a second time, all
/// uploads succeeding both times, leaves the bucket exactly as the first
/// replay left it, whatever it held before.
pub proof fn lemma_populate_idempotent(
    m: Map<Seq<u8>, Seq<u8>>,
    es: Seq<(Seq<u8>, Seq<u8>)>,
    os1: Seq<Outcome>,
    os2: Seq<Outcome>,
)
    requires
        os1.len() == es.len(),
        forall|i: int| 0 <= i < os1.len() ==> (#[trigger] os1[i]) is Success,
        os2.len() == es.len(),
        forall|i: int| 0 <= i < os2.len() ==> (#[trigger] os2[i]) is Success,
    ensures
        apply_outcomes(apply_outcomes(m, es, os1), es, os2) == apply_outcomes(m, es, os1),
{
    lemma_apply_all_success(m, es, os1);
    let once = insert_pairs(m, es);
    lemma_apply_all_success(once, es, os2);
    lemma_insert_pairs_char(m, es);
    lemma_insert_pairs_char(once, es);
    assert forall|k: Seq<u8>|
        insert_pairs(once, es).dom().contains(k) == #[trigger] once.dom().contains(k) by {
        let lv = last_value(es, k);
        assert(lv == last_value(es, k));
    }
    assert forall|k: Seq<u8>| #[trigger]
        once.dom().contains(k) implies insert_pairs(once, es)[k] == once[k] by {
        let lv = last_value(es, k);
        assert(lv == last_value(es, k));
    }
    assert(insert_pairs(once, es) =~= once);
}

/// Empty bucket: dumping a bucket with no objects records no outcomes and
/// produces the bare, validly terminated container, which decodes to zero
/// entries.
pub proof fn lemma_empty_bucket_dump(os: Seq<Outcome>, m: Map<Seq<u8>, Seq<u8>>)
    requires
        dump_outcomes_wf(os, m),
        m.dom() == Set::<Seq<u8>>::empty(),
    ensures
        os.len() == 0,
        success_pairs(os, m) == Seq::<(Seq<u8>, Seq<u8>)>::empty(),
        encode_archive(success_pairs(os, m)) == zeros(1024),
{
    if os.len() > 0 {
        let k = outcome_keys(os)[0];
        assert(outcome_keys(os).contains(k));
        assert(m.dom().contains(k));
    }
    assert(encode_archive(success_pairs(os, m)) =~= zeros(1024));
}

} // verus!
