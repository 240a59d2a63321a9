//! Hall call assignment through the external hall request assigner.
//!
//! The assigner is an external program. Its input describes the confirmed
//! hall requests and the working elevators; its output is a JSON object
//! mapping `"id_<n>"` to one `[up, down]` pair of booleans per floor, the
//! hall calls elevator `n` should serve. This module builds the input
//! ([`hra_input_at`]) and reads the output; running the program is the
//! caller's business.
use vstd::prelude::*;
use std::collections::HashMap;

use crate::config::FLOOR_COUNT;
use crate::fsm::{cell, no_requests, ControllerRequests, Dirn, ElevatorBehaviour};
use crate::json::{
    decimal_i32, json_array_elements, json_bool, json_object_members, json_valid, pairs_view, parse_i32,
    spec_json_array_elements, spec_json_bool, spec_json_object_members, spec_json_valid, texts_view,
};
use crate::manager::{alive_set, elevator_ids, lemma_push_contains, ElevatorView, RequestState, WorldModel, WorldView};

verus! {

broadcast use vstd::std_specs::hash::group_hash_axioms;

/// The text after an `id_` prefix.
pub open spec fn id_suffix(key: Seq<char>) -> Option<Seq<char>> {
    if key.len() >= 3 && key[0] == 'i' && key[1] == 'd' && key[2] == '_' {
        Some(key.subrange(3, key.len() as int))
    } else {
        None
    }
}

/// `key` with every leading `id_` removed.
pub open spec fn trim_id(key: Seq<char>) -> Seq<char>
    decreases key.len(),
{
    if key.len() >= 3 && key[0] == 'i' && key[1] == 'd' && key[2] == '_' {
        trim_id(key.subrange(3, key.len() as int))
    } else {
        key
    }
}

/// The text after an `id_` prefix.
fn strip_id_prefix(key: &str) -> (r: Option<&str>)
    ensures
        match r {
            Some(s) => id_suffix(key@) == Some(s@),
            None => id_suffix(key@) is None,
        },
{
    let n = key.unicode_len();
    if n >= 3 && key.get_char(0) == 'i' && key.get_char(1) == 'd' && key.get_char(2) == '_' {
        Some(key.substring_char(3, n))
    } else {
        None
    }
}

/// `key` with every leading `id_` removed.
fn trim_id_prefixes(key: &str) -> (r: &str)
    ensures
        r@ == trim_id(key@),
{
    let mut s = key;
    loop
        invariant
            trim_id(s@) == trim_id(key@),
        decreases s@.len(),
    {
        match strip_id_prefix(s) {
            Some(rest) => {
                s = rest;
            },
            None => {
                return s;
            },
        }
    }
}

/// An `[up, down]` pair of booleans read from a JSON array: its first two
/// elements must be booleans.
pub open spec fn parse_pair(text: Seq<char>) -> Option<(bool, bool)> {
    match spec_json_array_elements(text) {
        Some(e) => if e.len() >= 2 {
            match (spec_json_bool(e[0]), spec_json_bool(e[1])) {
                (Some(a), Some(b)) => Some((a, b)),
                _ => None,
            }
        } else {
            None
        },
        None => None,
    }
}

/// The pairs of a JSON array of pairs, at most one per floor.
pub open spec fn parse_rows(text: Seq<char>) -> Option<Seq<(bool, bool)>> {
    match spec_json_array_elements(text) {
        Some(t) => if t.len() <= FLOOR_COUNT && forall|i: int|
            0 <= i < t.len() ==> #[trigger] parse_pair(t[i]) is Some {
            Some(t.map_values(|x: Seq<char>| parse_pair(x)->0))
        } else {
            None
        },
        None => None,
    }
}

/// One member of the assigner output: `None` when it is malformed,
/// `Some(None)` when its key does not start with `id_`, else the elevator id
/// and its pairs.
pub open spec fn parse_entry(key: Seq<char>, val: Seq<char>) -> Option<Option<(i32, Seq<(bool, bool)>)>> {
    match id_suffix(key) {
        None => Some(None),
        Some(s) => match decimal_i32(s) {
            None => None,
            Some(id) => match parse_rows(val) {
                None => None,
                Some(rows) => Some(Some((id, rows))),
            },
        },
    }
}

/// The assignments of the first `n` members, later ones overriding earlier
/// ones with the same id; `None` once a member is malformed.
pub open spec fn assignments_prefix(members: Seq<(Seq<char>, Seq<char>)>, n: int) -> Option<
    Map<i32, Seq<(bool, bool)>>,
>
    decreases n,
{
    if n <= 0 {
        Some(Map::empty())
    } else {
        match assignments_prefix(members, n - 1) {
            None => None,
            Some(m) => match parse_entry(members[n - 1].0, members[n - 1].1) {
                None => None,
                Some(None) => Some(m),
                Some(Some((id, rows))) => Some(m.insert(id, rows)),
            },
        }
    }
}

/// The assignments the assigner output `text` holds, per elevator id.
pub open spec fn spec_assignments(text: Seq<char>) -> Option<Map<i32, Seq<(bool, bool)>>> {
    if !spec_json_valid(text) {
        None
    } else {
        match spec_json_object_members(text) {
            Some(ms) => assignments_prefix(ms, ms.len() as int),
            None => None,
        }
    }
}

/// `m` holds the pairs `rows` as hall buttons, floor by floor, and nothing else.
pub open spec fn rows_match(m: ControllerRequests, rows: Seq<(bool, bool)>) -> bool {
    &&& rows.len() <= FLOOR_COUNT
    &&& forall|f: int, b: int|
        0 <= f < FLOOR_COUNT && 0 <= b < 3 ==> #[trigger] cell(m, f, b) == (b < 2 && f < rows.len() && if b
            == 0 {
            rows[f].0
        } else {
            rows[f].1
        })
}

/// Whether some pair of `rows` holds a call.
pub open spec fn rows_any(rows: Seq<(bool, bool)>) -> bool {
    exists|f: int| 0 <= f < rows.len() && (#[trigger] rows[f].0 || rows[f].1)
}

/// `h` holds exactly the assignments `m`.
pub open spec fn map_matches(h: Map<i32, ControllerRequests>, m: Map<i32, Seq<(bool, bool)>>) -> bool {
    &&& h.dom() == m.dom()
    &&& forall|k: i32| #[trigger] h.contains_key(k) ==> rows_match(h[k], m[k])
}

/// Once malformed, always malformed.
proof fn lemma_prefix_none(members: Seq<(Seq<char>, Seq<char>)>, i: int, n: int)
    requires
        0 <= i <= n,
        assignments_prefix(members, i) is None,
    ensures
        assignments_prefix(members, n) is None,
    decreases n - i,
{
    if i < n {
        lemma_prefix_none(members, i, n - 1);
    }
}

/// Reads the pairs of one elevator's assignment.
fn parse_assignment_rows(val: &str) -> (r: Option<ControllerRequests>)
    ensures
        match r {
            Some(m) => parse_rows(val@) matches Some(rows) && rows_match(m, rows),
            None => parse_rows(val@) is None,
        },
{
    let floors = match json_array_elements(val) {
        Some(t) => t,
        None => {
            return None;
        },
    };
    let ghost t = texts_view(floors@);
    if floors.len() > FLOOR_COUNT {
        return None;
    }
    let mut reqs = no_requests();
    let mut i: usize = 0;
    while i < floors.len()
        invariant
            i <= floors.len() <= FLOOR_COUNT,
            t == texts_view(floors@),
            spec_json_array_elements(val@) == Some(t),
            forall|j: int| 0 <= j < i ==> #[trigger] parse_pair(t[j]) is Some,
            forall|f: int, b: int|
                0 <= f < FLOOR_COUNT && 0 <= b < 3 ==> #[trigger] cell(reqs, f, b) == (b < 2 && f < i && if b
                    == 0 {
                    (parse_pair(t[f])->0).0
                } else {
                    (parse_pair(t[f])->0).1
                }),
        decreases floors.len() - i,
    {
        let pair = match json_array_elements(floors[i].as_str()) {
            Some(p) => p,
            None => {
                assert(parse_pair(t[i as int]) is None);
                return None;
            },
        };
        if pair.len() < 2 {
            assert(parse_pair(t[i as int]) is None);
            return None;
        }
        let a = match json_bool(pair[0].as_str()) {
            Some(a) => a,
            None => {
                assert(parse_pair(t[i as int]) is None);
                return None;
            },
        };
        let b = match json_bool(pair[1].as_str()) {
            Some(b) => b,
            None => {
                assert(parse_pair(t[i as int]) is None);
                return None;
            },
        };
        let ghost r0 = reqs;
        let row = [a, b, false];
        reqs[i] = row;
        proof {
            assert(parse_pair(t[i as int]) == Some((a, b)));
            assert(row@ =~= seq![a, b, false]);
            assert forall|f: int, bb: int| 0 <= f < FLOOR_COUNT && 0 <= bb < 3 implies #[trigger] cell(
                reqs,
                f,
                bb,
            ) == (bb < 2 && f < i + 1 && if bb == 0 {
                (parse_pair(t[f])->0).0
            } else {
                (parse_pair(t[f])->0).1
            }) by {
                if f != i {
                    assert(reqs@[f] == r0@[f]);
                    assert(cell(reqs, f, bb) == cell(r0, f, bb));
                } else if bb == 0 {
                    assert(cell(reqs, f, bb) == a);
                } else if bb == 1 {
                    assert(cell(reqs, f, bb) == b);
                } else {
                    assert(cell(reqs, f, bb) == false);
                }
            }
        }
        i += 1;
    }
    proof {
        let rows = t.map_values(|x: Seq<char>| parse_pair(x)->0);
        assert(parse_rows(val@) == Some(rows));
        assert forall|f: int, b: int| 0 <= f < FLOOR_COUNT && 0 <= b < 3 implies #[trigger] cell(reqs, f, b)
            == (b < 2 && f < rows.len() && if b == 0 {
            rows[f].0
        } else {
            rows[f].1
        }) by {}
    }
    Some(reqs)
}

/// Reads the output of the hall request assigner: for every member whose
/// key is `id_` followed by an integer, that elevator's `[up, down]` pairs
/// as hall calls of a request matrix. `None` when the text is not JSON, not a JSON
/// object, or such a member's id is not an integer, its value not an array
/// of at most one pair of booleans per floor.
pub fn covert_json_to_all_controller_reqs(output_json: &str) -> (r: Option<HashMap<i32, ControllerRequests>>)
    ensures
        match r {
            Some(h) => spec_assignments(output_json@) matches Some(m) && map_matches(h@, m),
            None => spec_assignments(output_json@) is None,
        },
{
    if !json_valid(output_json) {
        return None;
    }
    match json_object_members(output_json) {
        Some(members) => assignments_from_members(&members),
        None => None,
    }
}

/// The assignments held by the members of the assigner's output object,
/// each a key and the raw text of its value; see [`assignments_prefix`].
pub fn assignments_from_members(members: &Vec<(String, String)>) -> (r: Option<HashMap<i32, ControllerRequests>>)
    ensures
        match r {
            Some(h) => assignments_prefix(pairs_view(members@), members@.len() as int) matches Some(m)
                && map_matches(h@, m),
            None => assignments_prefix(pairs_view(members@), members@.len() as int) is None,
        },
{
    let ghost ms = pairs_view(members@);
    let mut assignments: HashMap<i32, ControllerRequests> = HashMap::new();
    let mut i: usize = 0;
    while i < members.len()
        invariant
            i <= members.len(),
            ms == pairs_view(members@),
            assignments_prefix(ms, i as int) matches Some(m) && map_matches(assignments@, m),
        decreases members.len() - i,
    {
        let ghost m0 = assignments_prefix(ms, i as int)->0;
        let key = members[i].0.as_str();
        let val = members[i].1.as_str();
        assert(key@ == ms[i as int].0 && val@ == ms[i as int].1);
        match strip_id_prefix(key) {
            Some(id_str) => {
                let id = match parse_i32(id_str) {
                    Some(id) => id,
                    None => {
                        proof {
                            lemma_prefix_none(ms, i + 1, ms.len() as int);
                        }
                        return None;
                    },
                };
                let reqs = match parse_assignment_rows(val) {
                    Some(r) => r,
                    None => {
                        proof {
                            lemma_prefix_none(ms, i + 1, ms.len() as int);
                        }
                        return None;
                    },
                };
                assignments.insert(id, reqs);
                proof {
                    let rows = parse_rows(val@)->0;
                    assert(assignments_prefix(ms, i + 1) == Some(m0.insert(id, rows)));
                    assert(assignments@.dom() =~= m0.insert(id, rows).dom());
                }
            },
            None => {},
        }
        i += 1;
    }
    Some(assignments)
}

/// Whether a request matrix holds any request.
pub open spec fn has_assignment(m: ControllerRequests) -> bool {
    exists|f: int, b: int| #[trigger] cell(m, f, b)
}

/// Whether some button of `m` is set.
fn any_set(m: &ControllerRequests) -> (r: bool)
    ensures
        r == has_assignment(*m),
{
    let mut f: usize = 0;
    while f < FLOOR_COUNT
        invariant
            f <= FLOOR_COUNT,
            forall|g: int, b: int| 0 <= g < f ==> !#[trigger] cell(*m, g, b),
        decreases FLOOR_COUNT - f,
    {
        let mut b: usize = 0;
        while b < 3
            invariant
                b <= 3,
                f < FLOOR_COUNT,
                forall|g: int, c: int| 0 <= g < f ==> !#[trigger] cell(*m, g, c),
                forall|c: int| 0 <= c < b ==> !#[trigger] cell(*m, f as int, c),
            decreases 3 - b,
        {
            if m[f][b] {
                assert(cell(*m, f as int, b as int));
                return true;
            }
            b += 1;
        }
        f += 1;
    }
    false
}

/// The ids of the elevators with some assigned call, each once.
fn active_ids(h: &HashMap<i32, ControllerRequests>) -> (v: Vec<i32>)
    ensures
        v@.no_duplicates(),
        forall|k: i32| v@.contains(k) <==> h@.contains_key(k) && has_assignment(h@[k]),
{
    let mut v: Vec<i32> = Vec::new();
    let ghost dom = h@.dom();
    for k in it: h.keys()
        invariant
            dom == h@.dom(),
            it.seq().unref().to_set() == dom,
            it.seq().unref().no_duplicates(),
            forall|x: i32|
                v@.contains(x) <==> it.seq().take(it.index() as int).unref().contains(x) && has_assignment(
                    h@[x],
                ),
            v@.no_duplicates(),
            v@.to_set().subset_of(it.seq().take(it.index() as int).unref().to_set()),
            it.index() == it.seq().len() ==> forall|x: i32|
                v@.contains(x) <==> h@.contains_key(x) && has_assignment(h@[x]),
    {
        let ghost before = v@;
        let ghost seen = it.seq().take(it.index() as int).unref();
        proof {
            assert(it.seq().take(it.index() + 1).unref() =~= seen.push(*k));
            seen.lemma_push_to_set_commute(*k);
            assert(!seen.contains(*k)) by {
                if seen.contains(*k) {
                    let j = choose|j: int| 0 <= j < seen.len() && seen[j] == *k;
                    assert(it.seq().unref()[j] == it.seq().unref()[it.index() as int]);
                }
            }
            assert(dom.contains(*k)) by {
                assert(it.seq().unref().contains(*k)) by {
                    assert(it.seq().unref()[it.index() as int] == *k);
                }
            }
        }
        let reqs = match h.get(k) {
            Some(r) => r,
            None => {
                assert(false);
                return v;
            },
        };
        if any_set(reqs) {
            v.push(*k);
        }
        proof {
            assert forall|x: i32| v@.contains(x) <==> seen.push(*k).contains(x) && has_assignment(h@[x]) by {
                if v@.len() > before.len() {
                    assert(v@ == before.push(*k));
                    if v@.contains(x) && x != *k {
                        let j = choose|j: int| 0 <= j < v@.len() && v@[j] == x;
                        assert(before[j] == x);
                    }
                    if before.contains(x) {
                        let j = choose|j: int| 0 <= j < before.len() && before[j] == x;
                        assert(v@[j] == x);
                    }
                    if x == *k {
                        assert(v@[before.len() as int] == x);
                    }
                }
                if seen.push(*k).contains(x) && x != *k {
                    let j = choose|j: int| 0 <= j < seen.len() + 1 && seen.push(*k)[j] == x;
                    assert(seen[j] == x);
                }
                if seen.contains(x) {
                    let j = choose|j: int| 0 <= j < seen.len() && seen[j] == x;
                    assert(seen.push(*k)[j] == x);
                }
                if x == *k {
                    assert(seen.push(*k)[seen.len() as int] == x);
                }
            }
            assert(v@.no_duplicates()) by {
                if v@.len() > before.len() {
                    assert(!before.contains(*k)) by {
                        if before.contains(*k) {
                            assert(before.to_set().contains(*k));
                        }
                    }
                }
            }
            assert(v@.to_set().subset_of(seen.push(*k).to_set())) by {
                assert forall|x: i32| v@.to_set().contains(x) implies seen.push(*k).to_set().contains(x) by {
                    assert(v@.contains(x));
                }
            }
            assert(it.seq().take(it.seq().len() as int) =~= it.seq());
        }
    }
    v
}

/// Why an assigner output yields no assignment for an elevator.
#[derive(Debug, Clone, Copy, PartialEq, Eq, Structural)]
pub enum AssignmentError {
    /// The output is malformed.
    InvalidOutput,
    /// The output assigns nothing to this elevator id.
    MissingId(i32),
}

/// Reads the assigner output for elevator `id`: its hall calls and the ids
/// of all elevators with some call (each once, in no particular order).
pub fn covert_json_to_controller_reqs(output_json: &str, id: i32) -> (r: Result<
    (ControllerRequests, Vec<i32>),
    AssignmentError,
>)
    ensures
        match spec_assignments(output_json@) {
            None => r == Err::<(ControllerRequests, Vec<i32>), AssignmentError>(
                AssignmentError::InvalidOutput,
            ),
            Some(m) => if !m.contains_key(id) {
                r == Err::<(ControllerRequests, Vec<i32>), AssignmentError>(AssignmentError::MissingId(id))
            } else {
                r matches Ok((own, active)) && rows_match(own, m[id]) && active@.no_duplicates() && forall|
                    k: i32,
                | active@.contains(k) <==> m.contains_key(k) && rows_any(m[k])
            },
        },
{
    match covert_json_to_all_controller_reqs(output_json) {
        None => Err(AssignmentError::InvalidOutput),
        Some(all) => {
            let active = active_ids(&all);
            proof {
                lemma_active_matches(all@, spec_assignments(output_json@)->0);
            }
            match all.get(&id) {
                None => Err(AssignmentError::MissingId(id)),
                Some(own) => Ok((*own, active)),
            }
        },
    }
}

/// Matrices holding assignments have a call exactly where the pairs do.
proof fn lemma_active_matches(h: Map<i32, ControllerRequests>, m: Map<i32, Seq<(bool, bool)>>)
    requires
        map_matches(h, m),
    ensures
        forall|k: i32| h.contains_key(k) ==> (has_assignment(#[trigger] h[k]) <==> rows_any(m[k])),
{
    assert forall|k: i32| h.contains_key(k) implies (has_assignment(#[trigger] h[k]) <==> rows_any(m[k])) by {
        assert(rows_match(h[k], m[k]));
        if has_assignment(h[k]) {
            let (f, b) = choose|f: int, b: int| #[trigger] cell(h[k], f, b);
            assert(m[k][f].0 || m[k][f].1);
        }
        if rows_any(m[k]) {
            let f = choose|f: int| 0 <= f < m[k].len() && (#[trigger] m[k][f].0 || m[k][f].1);
            if m[k][f].0 {
                assert(cell(h[k], f, 0));
            } else {
                assert(cell(h[k], f, 1));
            }
        }
    }
}

/// The outcome when no elevator works: nothing to assign, no calls for
/// anyone, no elevator active.
pub fn empty_assignment() -> (r: (ControllerRequests, Vec<i32>))
    ensures
        forall|f: int, b: int| !cell(r.0, f, b),
        r.1@.len() == 0,
{
    (no_requests(), Vec::new())
}

/// The outcome of an assignment for elevator `own_id`: its hall calls (none
/// when the output names it not) and the ids of all elevators with some
/// call (each once); `None` when the output is malformed.
pub fn assignments_from_output(output_json: &str, own_id: u8) -> (r: Option<(ControllerRequests, Vec<i32>)>)
    ensures
        match spec_assignments(output_json@) {
            None => r is None,
            Some(m) => r matches Some((own, active)) && rows_match(
                own,
                if m.contains_key(own_id as i32) {
                    m[own_id as i32]
                } else {
                    Seq::empty()
                },
            ) && active@.no_duplicates() && forall|k: i32|
                active@.contains(k) <==> m.contains_key(k) && rows_any(m[k]),
        },
{
    let all = match covert_json_to_all_controller_reqs(output_json) {
        Some(a) => a,
        None => {
            return None;
        },
    };
    let active = active_ids(&all);
    proof {
        lemma_active_matches(all@, spec_assignments(output_json@)->0);
    }
    let own = match all.get(&(own_id as i32)) {
        Some(r) => *r,
        None => no_requests(),
    };
    Some((own, active))
}

/// Whether a raw JSON value, read leniently, holds a `true`: an array with
/// an array element holding a `true` element; anything else reads as false.
pub open spec fn lenient_true(val: Seq<char>) -> bool {
    match spec_json_array_elements(val) {
        None => false,
        Some(items) => any_inner_true(items),
    }
}

/// Whether some of the raw values is an array with a `true` element.
pub open spec fn any_inner_true(items: Seq<Seq<char>>) -> bool {
    exists|i: int| 0 <= i < items.len() && #[trigger] inner_true(items[i])
}

/// Whether a raw JSON value is an array with a `true` element.
pub open spec fn inner_true(t: Seq<char>) -> bool {
    match spec_json_array_elements(t) {
        None => false,
        Some(bs) => exists|j: int| 0 <= j < bs.len() && #[trigger] spec_json_bool(bs[j]) == Some(true),
    }
}

/// The ids, in member order, of the first `n` members whose key starts with
/// `id_`, whose value leniently holds a call and whose key without its
/// leading `id_`s is an integer.
pub open spec fn assigned_ids_prefix(members: Seq<(Seq<char>, Seq<char>)>, n: int) -> Seq<i32>
    decreases n,
{
    if n <= 0 {
        seq![]
    } else {
        let prev = assigned_ids_prefix(members, n - 1);
        let k = members[n - 1].0;
        let v = members[n - 1].1;
        if id_suffix(k) is Some && lenient_true(v) && decimal_i32(trim_id(k)) is Some {
            prev.push(decimal_i32(trim_id(k))->0)
        } else {
            prev
        }
    }
}

/// Whether some element of the array texts holds `true`.
fn some_true(elements: &Vec<String>) -> (r: bool)
    ensures
        r == exists|j: int|
            0 <= j < elements@.len() && #[trigger] spec_json_bool(texts_view(elements@)[j]) == Some(true),
{
    let mut j: usize = 0;
    while j < elements.len()
        invariant
            j <= elements.len(),
            forall|i: int| 0 <= i < j ==> #[trigger] spec_json_bool(texts_view(elements@)[i]) != Some(true),
        decreases elements.len() - j,
    {
        if json_bool(elements[j].as_str()) == Some(true) {
            assert(texts_view(elements@)[j as int] == elements@[j as int]@);
            assert(spec_json_bool(texts_view(elements@)[j as int]) == Some(true));
            return true;
        }
        j += 1;
    }
    false
}

/// Whether the raw JSON value `val`, read leniently, holds a call.
fn holds_true(val: &str) -> (r: bool)
    ensures
        r == lenient_true(val@),
{
    let items = match json_array_elements(val) {
        Some(i) => i,
        None => {
            return false;
        },
    };
    let mut i: usize = 0;
    while i < items.len()
        invariant
            i <= items.len(),
            spec_json_array_elements(val@) == Some(texts_view(items@)),
            forall|j: int| 0 <= j < i ==> !#[trigger] inner_true(texts_view(items@)[j]),
        decreases items.len() - i,
    {
        let inner = match json_array_elements(items[i].as_str()) {
            Some(b) => b,
            None => {
                assert(texts_view(items@)[i as int] == items@[i as int]@);
                i += 1;
                continue;
            },
        };
        assert(texts_view(items@)[i as int] == items@[i as int]@);
        if some_true(&inner) {
            proof {
                let t = texts_view(items@);
                assert(t.len() == items@.len());
                assert(spec_json_array_elements(t[i as int]) == Some(texts_view(inner@)));
                assert(inner_true(t[i as int]));
                assert(spec_json_array_elements(val@) == Some(t));
                assert(any_inner_true(t));
            }
            return true;
        }
        i += 1;
    }
    false
}

/// The ids of the elevators the assigner output gives some call, in member
/// order: members whose key starts with `id_` and whose value holds a
/// `true` in an inner array (other shapes read as no call), with the key's
/// leading `id_`s removed and the rest read as an integer (members whose
/// rest is no integer are left out). `None` when the text is not JSON or not
/// a JSON object.
pub fn ids_with_assigned_calls(output_json: &str) -> (r: Option<Vec<i32>>)
    ensures
        !spec_json_valid(output_json@) ==> r is None,
        spec_json_valid(output_json@) ==> match spec_json_object_members(output_json@) {
            None => r is None,
            Some(ms) => r matches Some(v) && v@ == assigned_ids_prefix(ms, ms.len() as int),
        },
{
    if !json_valid(output_json) {
        return None;
    }
    match json_object_members(output_json) {
        Some(members) => Some(assigned_ids_from_members(&members)),
        None => None,
    }
}

/// The ids, in order, of the members of the assigner's output object (each
/// a key and the raw text of its value) that hold a call; see
/// [`assigned_ids_prefix`].
pub fn assigned_ids_from_members(members: &Vec<(String, String)>) -> (ids: Vec<i32>)
    ensures
        ids@ == assigned_ids_prefix(pairs_view(members@), members@.len() as int),
{
    let ghost ms = pairs_view(members@);
    let mut ids: Vec<i32> = Vec::new();
    let mut i: usize = 0;
    while i < members.len()
        invariant
            i <= members.len(),
            ms == pairs_view(members@),
            ids@ == assigned_ids_prefix(ms, i as int),
        decreases members.len() - i,
    {
        let key = members[i].0.as_str();
        let val = members[i].1.as_str();
        assert(key@ == ms[i as int].0 && val@ == ms[i as int].1);
        if strip_id_prefix(key).is_some() && holds_true(val) {
            match parse_i32(trim_id_prefixes(key)) {
                Some(id) => {
                    ids.push(id);
                },
                None => {},
            }
        }
        i += 1;
    }
    ids
}

/// One working elevator as the assigner sees it.
#[derive(Debug, Clone, Copy)]
pub struct HraElevatorState {
    pub id: u8,
    pub behaviour: ElevatorBehaviour,
    pub floor: i8,
    pub direction: Dirn,
    /// Confirmed cab requests per floor.
    pub cab_requests: [bool; FLOOR_COUNT],
}

/// The assigner's input.
#[derive(Debug)]
pub struct HraInput {
    /// Confirmed hall requests per floor: `[up, down]`.
    pub hall_requests: Vec<[bool; 2]>,
    /// The working elevators.
    pub states: Vec<HraElevatorState>,
}

/// The elevators that take part in an assignment at `now`: alive (heard
/// from within 2 seconds) and working.
pub open spec fn working_set(w: WorldModel, now: u64) -> Set<u8> {
    alive_set(w, 2, now).filter(|k: u8| w.elevators[k].is_working)
}

/// `s` describes elevator `k` of view `e` to the assigner.
pub open spec fn describes(s: HraElevatorState, k: u8, e: ElevatorView) -> bool {
    &&& s.id == k
    &&& s.behaviour == e.state.behaviour
    &&& s.floor == e.state.current_floor
    &&& s.direction == e.state.dirn
    &&& forall|f: int|
        0 <= f < FLOOR_COUNT ==> #[trigger] s.cab_requests@[f] == (e.cab_requests[f].state
            == RequestState::Confirmed)
}

/// The ids the descriptions are about.
pub open spec fn ids_of(states: Seq<HraElevatorState>) -> Seq<u8> {
    states.map_values(|s: HraElevatorState| s.id)
}

/// `r` is the assigner's input for view `w` at time `now`: `None` when no
/// elevator is working, else the confirmed hall requests and exactly one
/// description per working elevator.
pub open spec fn is_hra_input(w: WorldModel, now: u64, r: Option<HraInput>) -> bool {
    match r {
        None => working_set(w, now).is_empty(),
        Some(inp) => {
            &&& !working_set(w, now).is_empty()
            &&& inp.hall_requests@.len() == FLOOR_COUNT
            &&& forall|f: int, d: int|
                0 <= f < FLOOR_COUNT && 0 <= d < 2 ==> #[trigger] inp.hall_requests@[f]@[d] == (
                w.hall_requests[f][d].state == RequestState::Confirmed)
            &&& ids_of(inp.states@).no_duplicates()
            &&& forall|k: u8| working_set(w, now).contains(k) <==> ids_of(inp.states@).contains(k)
            &&& forall|i: int|
                0 <= i < inp.states@.len() ==> describes(
                    #[trigger] inp.states@[i],
                    inp.states@[i].id,
                    w.elevators[inp.states@[i].id],
                )
        },
    }
}

/// The assigner's input for `world_view` at time `now`: the confirmed hall
/// requests and one description per working elevator. `None` when no
/// elevator is working: then there is nothing to assign.
pub fn hra_input_at(world_view: &WorldView, now: u64) -> (r: Option<HraInput>)
    ensures
        is_hra_input(world_view@, now, r),
{
    let ghost w = world_view@;
    let alive = world_view.get_alive_elevators_at(2, now);
    let ids = elevator_ids(&world_view.elevators);
    let mut states: Vec<HraElevatorState> = Vec::new();
    let mut i: usize = 0;
    while i < ids.len()
        invariant
            i <= ids.len(),
            w == world_view@,
            ids@.no_duplicates(),
            alive@ == alive_set(w, 2, now),
            forall|k: u8| ids@.contains(k) <==> world_view.elevators@.contains_key(k),
            ids_of(states@).no_duplicates(),
            forall|k: u8|
                (working_set(w, now).contains(k) && ids@.take(i as int).contains(k)) <==> ids_of(
                    states@,
                ).contains(k),
            forall|a: int|
                0 <= a < states@.len() ==> describes(
                    #[trigger] states@[a],
                    states@[a].id,
                    w.elevators[states@[a].id],
                ),
        decreases ids.len() - i,
    {
        let k = ids[i];
        proof {
            assert(ids@.take(i + 1) =~= ids@.take(i as int).push(k));
            assert(ids@.contains(k));
            assert(!ids@.take(i as int).contains(k)) by {
                if ids@.take(i as int).contains(k) {
                    let j = choose|j: int| 0 <= j < i && ids@[j] == k;
                    assert(ids@[j] == ids@[i as int]);
                }
            }
        }
        let e = match world_view.elevators.get(&k) {
            Some(e) => e,
            None => {
                assert(false);
                return None;
            },
        };
        let ghost before = states@;
        if alive.contains(&k) && e.is_working {
            let mut cab = [false; FLOOR_COUNT];
            let mut f: usize = 0;
            while f < FLOOR_COUNT
                invariant
                    f <= FLOOR_COUNT,
                    e@ == w.elevators[k],
                    forall|g: int|
                        0 <= g < FLOOR_COUNT ==> #[trigger] cab@[g] == (g < f && e@.cab_requests[g].state
                            == RequestState::Confirmed),
                decreases FLOOR_COUNT - f,
            {
                cab[f] = e.cab_requests[f].state == RequestState::Confirmed;
                f += 1;
            }
            states.push(
                HraElevatorState {
                    id: k,
                    behaviour: e.state.behaviour,
                    floor: e.state.current_floor,
                    direction: e.state.dirn,
                    cab_requests: cab,
                },
            );
        }
        proof {
            lemma_push_contains(ids@.take(i as int), k);
            if states@.len() > before.len() {
                assert(ids_of(states@) =~= ids_of(before).push(k));
                lemma_push_contains(ids_of(before), k);
                assert(!ids_of(before).contains(k));
                assert(working_set(w, now).contains(k));
            } else {
                assert(ids_of(states@) == ids_of(before));
                assert(!working_set(w, now).contains(k));
            }
        }
        i += 1;
    }
    proof {
        assert(ids@.take(ids.len() as int) =~= ids@);
        assert forall|k: u8| working_set(w, now).contains(k) implies ids@.contains(k) by {}
    }
    if states.len() == 0 {
        proof {
            assert forall|k: u8| !working_set(w, now).contains(k) by {
                if working_set(w, now).contains(k) {
                    assert(ids@.contains(k));
                    assert(ids_of(states@).contains(k));
                }
            }
            assert(working_set(w, now) =~= Set::empty());
        }
        return None;
    }
    proof {
        assert(ids_of(states@)[0] == states@[0].id);
        assert(ids_of(states@).contains(states@[0].id));
        assert(working_set(w, now).contains(states@[0].id));
    }
    let mut hall: Vec<[bool; 2]> = Vec::new();
    let mut f: usize = 0;
    while f < FLOOR_COUNT
        invariant
            f <= FLOOR_COUNT,
            w == world_view@,
            hall@.len() == f,
            forall|g: int, d: int|
                0 <= g < f && 0 <= d < 2 ==> #[trigger] hall@[g]@[d] == (w.hall_requests[g][d].state
                    == RequestState::Confirmed),
        decreases FLOOR_COUNT - f,
    {
        let up = world_view.hall_requests[f][0].state == RequestState::Confirmed;
        let down = world_view.hall_requests[f][1].state == RequestState::Confirmed;
        let row = [up, down];
        hall.push(row);
        proof {
            assert(row@ =~= seq![up, down]);
            assert(w.hall_requests[f as int][0] == world_view.hall_requests@[f as int]@[0]@);
            assert(w.hall_requests[f as int][1] == world_view.hall_requests@[f as int]@[1]@);
        }
        f += 1;
    }
    Some(HraInput { hall_requests: hall, states })
}

/// [`hra_input_at`] at the current time.
pub fn hra_input(world_view: &WorldView) -> (r: Option<HraInput>)
    ensures
        exists|now: u64| #[trigger] is_hra_input(world_view@, now, r),
{
    hra_input_at(world_view, crate::clock::now_nanos())
}

} // verus!
