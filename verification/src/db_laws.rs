//! What a check of a build against the database reports, related to what
//! ingesting the build does.

use vstd::prelude::*;
use crate::db::{
    CheckStats, DbError, EvV, StrV, check_events_spec, check_outcome, check_strings_spec, ev_pos, find_by_full_hash,
    find_by_tag, find_str, ingest_events_spec, ingest_outcome, ingest_strings_spec, insert_ev, insert_str,
    lemma_ev_pos, lemma_str_pos, same_build_check, str_pos,
};

verus! {

/// Putting a string in its place makes its hash find it, and leaves every
/// other hash finding what it found before.
proof fn lemma_find_str_insert(s: Seq<StrV>, x: StrV, h: u32)
    ensures
        find_str(insert_str(s, x), h) == (if h == x.0 { Some(x.1) } else { find_str(s, h) }),
    decreases s.len(),
{
    lemma_str_pos(s, x.0);
    let t = insert_str(s, x);
    if s.len() == 0 || s[0].0 >= x.0 {
        assert(str_pos(s, x.0) == 0);
        assert(t[0] == x);
        assert(t.drop_first() =~= s);
    } else {
        let r = s.drop_first();
        lemma_str_pos(r, x.0);
        lemma_find_str_insert(r, x, h);
        assert(str_pos(s, x.0) == 1 + str_pos(r, x.0));
        assert(t[0] == s[0]);
        assert(t.drop_first() =~= insert_str(r, x));
    }
}

/// After an ingest of `input`, each of its strings is found with its content,
/// and a hash that none of them has finds what it found before.
proof fn lemma_ingest_strings_lookup(db: Seq<StrV>, input: Seq<StrV>)
    ensures
        ingest_strings_spec(db, input) matches Ok((s, a, k)) ==> {
            &&& forall|j: int| 0 <= j < input.len() ==> #[trigger] find_str(s, input[j].0) == Some(input[j].1)
            &&& forall|h: u32| (forall|j: int| 0 <= j < input.len() ==> input[j].0 != h) ==> #[trigger] find_str(s, h) == find_str(db, h)
        },
    decreases input.len(),
{
    if input.len() > 0 {
        let init = input.drop_last();
        lemma_ingest_strings_lookup(db, init);
        if let Ok((s0, a0, k0)) = ingest_strings_spec(db, init) {
            let x = input.last();
            if let Ok((s, a, k)) = ingest_strings_spec(db, input) {
                assert forall|j: int| 0 <= j < input.len() implies #[trigger] find_str(s, input[j].0) == Some(input[j].1) by {
                    if j < init.len() {
                        assert(init[j] == input[j]);
                        assert(find_str(s0, init[j].0) == Some(init[j].1));
                        if find_str(s0, x.0) is None {
                            lemma_find_str_insert(s0, x, input[j].0);
                        }
                    } else {
                        if find_str(s0, x.0) is None {
                            lemma_find_str_insert(s0, x, x.0);
                        }
                    }
                }
                assert forall|h: u32| (forall|j: int| 0 <= j < input.len() ==> input[j].0 != h) implies #[trigger] find_str(s, h) == find_str(db, h) by {
                    assert forall|j: int| 0 <= j < init.len() implies init[j].0 != h by {
                        assert(init[j] == input[j]);
                    }
                    assert(find_str(s0, h) == find_str(db, h));
                    assert(input[input.len() - 1] == x);
                    if find_str(s0, x.0) is None {
                        lemma_find_str_insert(s0, x, h);
                    }
                }
            }
        }
    }
}

/// Strings that the database holds with the same content all count as
/// existing; strings whose hash it does not hold all count as new.
pub proof fn law_check_strings_counts(db: Seq<StrV>, input: Seq<StrV>)
    ensures
        (forall|j: int| 0 <= j < input.len() ==> #[trigger] find_str(db, input[j].0) == Some(input[j].1))
            ==> check_strings_spec(db, input) == Ok::<(nat, nat), DbError>((0, input.len())),
        (forall|j: int| 0 <= j < input.len() ==> #[trigger] find_str(db, input[j].0) is None)
            ==> check_strings_spec(db, input) == Ok::<(nat, nat), DbError>((input.len(), 0)),
    decreases input.len(),
{
    if input.len() > 0 {
        let init = input.drop_last();
        law_check_strings_counts(db, init);
        assert forall|j: int| 0 <= j < init.len() implies init[j] == input[j] by {}
        assert(input[input.len() - 1] == input.last());
    }
}

/// No two strings of `input` share a hash.
pub open spec fn str_hashes_distinct(input: Seq<StrV>) -> bool {
    forall|i: int, j: int| 0 <= i < input.len() && 0 <= j < input.len() && i != j ==> input[i].0 != input[j].0
}

/// For strings with distinct hashes, a check counts as new exactly what an
/// ingest adds and as existing exactly what it skips.
pub proof fn law_check_strings_like_ingest(db: Seq<StrV>, input: Seq<StrV>)
    requires
        str_hashes_distinct(input),
    ensures
        ingest_strings_spec(db, input) matches Ok((s, a, k)) ==> check_strings_spec(db, input) == Ok::<(nat, nat), DbError>((a, k)),
    decreases input.len(),
{
    if input.len() > 0 {
        let init = input.drop_last();
        let x = input.last();
        assert(str_hashes_distinct(init)) by {
            assert forall|i: int, j: int| 0 <= i < init.len() && 0 <= j < init.len() && i != j implies init[i].0 != init[j].0 by {
                assert(init[i] == input[i] && init[j] == input[j]);
            }
        }
        law_check_strings_like_ingest(db, init);
        lemma_ingest_strings_lookup(db, init);
        if let Ok((s0, a0, k0)) = ingest_strings_spec(db, init) {
            assert forall|j: int| 0 <= j < init.len() implies init[j].0 != x.0 by {
                assert(init[j] == input[j]);
                assert(input[input.len() - 1] == x);
            }
            assert(find_str(s0, x.0) == find_str(db, x.0));
        }
    }
}

/// Right after an ingest, checking the same strings finds all of them
/// existing and none new.
pub proof fn law_check_strings_after_ingest(db: Seq<StrV>, input: Seq<StrV>)
    ensures
        ingest_strings_spec(db, input) matches Ok((s, a, k)) ==> check_strings_spec(s, input) == Ok::<(nat, nat), DbError>((0, input.len())),
{
    lemma_ingest_strings_lookup(db, input);
    if let Ok((s, a, k)) = ingest_strings_spec(db, input) {
        law_check_strings_counts(s, input);
    }
}

/// Putting an event in its place by tag makes its tag find it, and leaves
/// every other tag finding what it found before.
proof fn lemma_find_tag_insert(s: Seq<EvV>, x: EvV, h: u32)
    ensures
        find_by_tag(insert_ev(s, x), h) == (if h == x.0 { Some(x) } else { find_by_tag(s, h) }),
    decreases s.len(),
{
    lemma_ev_pos(s, x.0);
    let t = insert_ev(s, x);
    if s.len() == 0 || s[0].0 >= x.0 {
        assert(ev_pos(s, x.0) == 0);
        assert(t[0] == x);
        assert(t.drop_first() =~= s);
    } else {
        let r = s.drop_first();
        lemma_ev_pos(r, x.0);
        lemma_find_tag_insert(r, x, h);
        assert(ev_pos(s, x.0) == 1 + ev_pos(r, x.0));
        assert(t[0] == s[0]);
        assert(t.drop_first() =~= insert_ev(r, x));
    }
}

/// Putting in an event whose full hash is not yet present makes that full
/// hash find it, and leaves every other full hash finding what it found before.
proof fn lemma_find_fh_insert(s: Seq<EvV>, x: EvV, h: u64)
    requires
        find_by_full_hash(s, x.1) is None,
    ensures
        find_by_full_hash(insert_ev(s, x), h) == (if h == x.1 { Some(x) } else { find_by_full_hash(s, h) }),
    decreases s.len(),
{
    lemma_ev_pos(s, x.0);
    let t = insert_ev(s, x);
    if s.len() == 0 || s[0].0 >= x.0 {
        assert(ev_pos(s, x.0) == 0);
        assert(t[0] == x);
        assert(t.drop_first() =~= s);
    } else {
        let r = s.drop_first();
        lemma_ev_pos(r, x.0);
        lemma_find_fh_insert(r, x, h);
        assert(ev_pos(s, x.0) == 1 + ev_pos(r, x.0));
        assert(t[0] == s[0]);
        assert(t.drop_first() =~= insert_ev(r, x));
    }
}

/// After an ingest of `input`, each of its events is found by its full hash;
/// a full hash or a tag that none of them has finds what it found before.
proof fn lemma_ingest_events_lookup(db: Seq<EvV>, input: Seq<EvV>)
    ensures
        ingest_events_spec(db, input) matches Ok((s, a, k)) ==> {
            &&& forall|j: int| 0 <= j < input.len() ==> #[trigger] find_by_full_hash(s, input[j].1) == Some(input[j])
            &&& forall|h: u64| (forall|j: int| 0 <= j < input.len() ==> input[j].1 != h) ==> #[trigger] find_by_full_hash(s, h) == find_by_full_hash(db, h)
            &&& forall|g: u32| (forall|j: int| 0 <= j < input.len() ==> input[j].0 != g) ==> #[trigger] find_by_tag(s, g) == find_by_tag(db, g)
        },
    decreases input.len(),
{
    if input.len() > 0 {
        let init = input.drop_last();
        lemma_ingest_events_lookup(db, init);
        if let Ok((s0, a0, k0)) = ingest_events_spec(db, init) {
            let x = input.last();
            assert(input[input.len() - 1] == x);
            if let Ok((s, a, k)) = ingest_events_spec(db, input) {
                let fresh = find_by_full_hash(s0, x.1) is None;
                assert forall|j: int| 0 <= j < input.len() implies #[trigger] find_by_full_hash(s, input[j].1) == Some(input[j]) by {
                    if j < init.len() {
                        assert(init[j] == input[j]);
                        assert(find_by_full_hash(s0, init[j].1) == Some(init[j]));
                        if fresh {
                            lemma_find_fh_insert(s0, x, input[j].1);
                        }
                    } else if fresh {
                        lemma_find_fh_insert(s0, x, x.1);
                    }
                }
                assert forall|h: u64| (forall|j: int| 0 <= j < input.len() ==> input[j].1 != h) implies #[trigger] find_by_full_hash(s, h) == find_by_full_hash(db, h) by {
                    assert forall|j: int| 0 <= j < init.len() implies init[j].1 != h by {
                        assert(init[j] == input[j]);
                    }
                    assert(find_by_full_hash(s0, h) == find_by_full_hash(db, h));
                    if fresh {
                        lemma_find_fh_insert(s0, x, h);
                    }
                }
                assert forall|g: u32| (forall|j: int| 0 <= j < input.len() ==> input[j].0 != g) implies #[trigger] find_by_tag(s, g) == find_by_tag(db, g) by {
                    assert forall|j: int| 0 <= j < init.len() implies init[j].0 != g by {
                        assert(init[j] == input[j]);
                    }
                    assert(find_by_tag(s0, g) == find_by_tag(db, g));
                    if fresh {
                        lemma_find_tag_insert(s0, x, g);
                    }
                }
            }
        }
    }
}

/// Events that the database holds, same tag and same content, all count as
/// existing; events whose full hash and tag it does not hold all count as new.
pub proof fn law_check_events_counts(db: Seq<EvV>, input: Seq<EvV>)
    ensures
        (forall|j: int| 0 <= j < input.len() ==> #[trigger] find_by_full_hash(db, input[j].1) == Some(input[j]))
            ==> check_events_spec(db, input) == Ok::<(nat, nat), DbError>((0, input.len())),
        (forall|j: int| 0 <= j < input.len() ==> #[trigger] find_by_full_hash(db, input[j].1) is None && find_by_tag(db, input[j].0) is None)
            ==> check_events_spec(db, input) == Ok::<(nat, nat), DbError>((input.len(), 0)),
    decreases input.len(),
{
    if input.len() > 0 {
        let init = input.drop_last();
        law_check_events_counts(db, init);
        assert forall|j: int| 0 <= j < init.len() implies init[j] == input[j] by {}
        assert(input[input.len() - 1] == input.last());
    }
}

/// No two events of `input` share a tag or a full hash.
pub open spec fn ev_keys_distinct(input: Seq<EvV>) -> bool {
    forall|i: int, j: int| 0 <= i < input.len() && 0 <= j < input.len() && i != j ==> input[i].0 != input[j].0 && input[i].1 != input[j].1
}

/// For events with distinct tags and full hashes, a check counts as new
/// exactly what an ingest adds and as existing exactly what it skips.
pub proof fn law_check_events_like_ingest(db: Seq<EvV>, input: Seq<EvV>)
    requires
        ev_keys_distinct(input),
    ensures
        ingest_events_spec(db, input) matches Ok((s, a, k)) ==> check_events_spec(db, input) == Ok::<(nat, nat), DbError>((a, k)),
    decreases input.len(),
{
    if input.len() > 0 {
        let init = input.drop_last();
        let x = input.last();
        assert(ev_keys_distinct(init)) by {
            assert forall|i: int, j: int| 0 <= i < init.len() && 0 <= j < init.len() && i != j implies init[i].0 != init[j].0 && init[i].1 != init[j].1 by {
                assert(init[i] == input[i] && init[j] == input[j]);
            }
        }
        law_check_events_like_ingest(db, init);
        lemma_ingest_events_lookup(db, init);
        if let Ok((s0, a0, k0)) = ingest_events_spec(db, init) {
            assert forall|j: int| 0 <= j < init.len() implies init[j].0 != x.0 && init[j].1 != x.1 by {
                assert(init[j] == input[j]);
                assert(input[input.len() - 1] == x);
            }
            assert(find_by_full_hash(s0, x.1) == find_by_full_hash(db, x.1));
            assert(find_by_tag(s0, x.0) == find_by_tag(db, x.0));
        }
    }
}

/// Right after an ingest, checking the same events finds all of them
/// existing and none new.
pub proof fn law_check_events_after_ingest(db: Seq<EvV>, input: Seq<EvV>)
    ensures
        ingest_events_spec(db, input) matches Ok((s, a, k)) ==> check_events_spec(s, input) == Ok::<(nat, nat), DbError>((0, input.len())),
{
    lemma_ingest_events_lookup(db, input);
    if let Ok((s, a, k)) = ingest_events_spec(db, input) {
        law_check_events_counts(s, input);
    }
}

/// A check of a build whose events have distinct tags and full hashes and
/// whose strings have distinct hashes reports as new and existing exactly
/// what ingesting it adds and skips; checking it again right after the
/// ingest reports everything as existing.
pub proof fn law_check_reports_what_ingest_does(db_e: Seq<EvV>, db_s: Seq<StrV>, events: Seq<EvV>, strings: Seq<StrV>)
    requires
        ev_keys_distinct(events),
        str_hashes_distinct(strings),
    ensures
        ingest_outcome(db_e, db_s, events, strings) matches Ok((e2, s2, st)) ==> {
            &&& check_outcome(db_e, db_s, events, strings) == Ok::<CheckStats, DbError>(CheckStats {
                events_new: st.events_added,
                events_existing: st.events_skipped,
                strings_new: st.strings_added,
                strings_existing: st.strings_skipped,
            })
            &&& check_outcome(e2, s2, events, strings) == Ok::<CheckStats, DbError>(CheckStats {
                events_new: 0,
                events_existing: events.len() as usize,
                strings_new: 0,
                strings_existing: strings.len() as usize,
            })
        },
{
    law_check_strings_like_ingest(db_s, strings);
    law_check_events_like_ingest(db_e, events);
    law_check_strings_after_ingest(db_s, strings);
    law_check_events_after_ingest(db_e, events);
    lemma_distinct_tags_pass(events);
}

/// Events with distinct tags pass the same-build check.
proof fn lemma_distinct_tags_pass(input: Seq<EvV>)
    requires
        ev_keys_distinct(input),
    ensures
        same_build_check(input) is Ok,
    decreases input.len(),
{
    if input.len() > 0 {
        let init = input.drop_last();
        assert(ev_keys_distinct(init)) by {
            assert forall|i: int, j: int| 0 <= i < init.len() && 0 <= j < init.len() && i != j implies init[i].0 != init[j].0 && init[i].1 != init[j].1 by {
                assert(init[i] == input[i] && init[j] == input[j]);
            }
        }
        lemma_distinct_tags_pass(init);
        crate::db::lemma_find_by_tag(init, input.last().0);
        assert forall|j: int| 0 <= j < init.len() implies init[j].0 != input.last().0 by {
            assert(init[j] == input[j]);
            assert(input[input.len() - 1] == input.last());
        }
    }
}

} // verus!
