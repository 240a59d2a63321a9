//! A small front end to the hall request assigner that works on plain
//! tables: elevator states keyed by id and hall calls per floor.
//!
//! [`convert_matrix_to_json`] builds the value that is serialised as the
//! assigner's input; [`convert_json_to_matrix`] reads its output into one
//! row of booleans per elevator `id_1` to `id_4`.
use vstd::prelude::*;
use std::collections::HashMap;

use crate::json::{
    json_array_elements, json_bool, json_object_members, json_valid, pairs_view, spec_json_array_elements,
    spec_json_bool, spec_json_object_members, spec_json_valid, texts_view,
};

verus! {

broadcast use vstd::std_specs::hash::group_hash_axioms;

/// One elevator as the assigner sees it.
#[derive(Debug)]
pub struct ElevatorState {
    pub id: i8,
    /// `"idle"`, `"moving"` or `"doorOpen"`.
    pub behavior: String,
    pub floor: usize,
    /// `"up"`, `"down"` or `"stop"`.
    pub direction: String,
    /// One flag per floor.
    pub cab_requests: Vec<bool>,
}

/// Elevator states by id.
#[derive(Debug)]
pub struct Elevators {
    pub elevators: HashMap<i8, ElevatorState>,
}

/// Hall calls per floor.
#[derive(Debug)]
pub struct HallCalls {
    /// Floors with an up call.
    pub up: Vec<bool>,
    /// Floors with a down call.
    pub down: Vec<bool>,
}

impl Clone for HallCalls {
    fn clone(&self) -> (r: Self)
        ensures
            r.up@ == self.up@,
            r.down@ == self.down@,
    {
        HallCalls { up: copy_flags(&self.up), down: copy_flags(&self.down) }
    }
}

/// The state of one elevator in the assigner's input, under its key.
#[derive(Debug)]
pub struct MatrixState {
    /// The id it is stored under.
    pub id: i8,
    /// `"id_<id>"`.
    pub key: String,
    pub behavior: String,
    pub floor: usize,
    pub direction: String,
    pub cab_requests: Vec<bool>,
}

/// The assigner's input: `[up, down]` per floor and the elevator states.
#[derive(Debug)]
pub struct MatrixInput {
    pub hall_requests: Vec<Vec<bool>>,
    pub states: Vec<MatrixState>,
}

/// The decimal digits of `n`, without leading zeros.
pub open spec fn decimal_text(n: nat) -> Seq<char>
    decreases n,
{
    if n < 10 {
        seq![(('0' as int) + n) as char]
    } else {
        decimal_text(n / 10).push((('0' as int) + (n % 10)) as char)
    }
}

/// `v` in decimal, with a leading `-` when negative.
pub open spec fn signed_decimal_text(v: int) -> Seq<char> {
    if v < 0 {
        seq!['-'] + decimal_text((-v) as nat)
    } else {
        decimal_text(v as nat)
    }
}

/// `"id_"` followed by `id` in decimal, with a `-` when negative.
pub open spec fn id_key_text(id: int) -> Seq<char> {
    seq!['i', 'd', '_'] + signed_decimal_text(id)
}

/// `id` in decimal by `to_string`, which writes an `i8` through std's
/// `Display` for integers: its decimal digits, with a leading `-` when
/// negative.
#[verifier::external_body]
fn i8_text(id: i8) -> (r: String)
    ensures
        r@ == signed_decimal_text(id as int),
{
    id.to_string()
}

/// The key an elevator is stored under in the assigner's input: `"id_<id>"`.
fn id_key(id: i8) -> (r: String)
    ensures
        r@ == id_key_text(id as int),
{
    let prefix = String::from_str("id_");
    proof {
        reveal_strlit("id_");
    }
    let digits = i8_text(id);
    prefix.concat(digits.as_str())
}

impl Elevators {
    /// Moves elevator `id`, if known, to `new_floor`.
    pub fn change_floor(&mut self, id: i8, new_floor: usize)
        ensures
            old(self).elevators@.contains_key(id) ==> final(self).elevators@ == old(self).elevators@.insert(
                id,
                ElevatorState { floor: new_floor, ..old(self).elevators@[id] },
            ),
            !old(self).elevators@.contains_key(id) ==> final(self).elevators@ == old(self).elevators@,
    {
        match self.elevators.remove(&id) {
            Some(mut elevator) => {
                elevator.floor = new_floor;
                self.elevators.insert(id, elevator);
                proof {
                    assert(self.elevators@ =~= old(self).elevators@.insert(
                        id,
                        ElevatorState { floor: new_floor, ..old(self).elevators@[id] },
                    ));
                }
            },
            None => {
                assert(self.elevators@ =~= old(self).elevators@);
            },
        }
    }
}

/// The ids of a table of elevators, each once.
fn table_ids(m: &HashMap<i8, ElevatorState>) -> (v: Vec<i8>)
    ensures
        v@.no_duplicates(),
        forall|k: i8| v@.contains(k) <==> m@.contains_key(k),
{
    let mut v: Vec<i8> = Vec::new();
    let ghost dom = m@.dom();
    for k in it: m.keys()
        invariant
            dom == m@.dom(),
            it.seq().unref().to_set() == dom,
            it.seq().unref().no_duplicates(),
            v@ == it.seq().take(it.index() as int).unref(),
            it.index() == it.seq().len() ==> v@ == it.seq().unref(),
    {
        v.push(*k);
        proof {
            assert(v@ =~= it.seq().take(it.index() + 1).unref());
            assert(it.seq().take(it.seq().len() as int) =~= it.seq());
        }
    }
    proof {
        assert forall|k: i8| v@.contains(k) <==> m@.contains_key(k) by {
            assert(v@.to_set().contains(k) <==> v@.contains(k));
        }
    }
    v
}

/// Whether `e` is the input entry of elevator `id` in state `s`.
pub open spec fn describes_entry(e: MatrixState, id: i8, s: ElevatorState) -> bool {
    &&& e.id == id
    &&& e.key@ == id_key_text(id as int)
    &&& e.behavior@ == s.behavior@
    &&& e.floor == s.floor
    &&& e.direction@ == s.direction@
    &&& e.cab_requests@ == s.cab_requests@
}

/// The `[up, down]` row of floor `i`: a missing down flag reads as false.
pub open spec fn hall_row(hallcalls: HallCalls, i: int) -> Seq<bool> {
    seq![hallcalls.up@[i], if i < hallcalls.down@.len() {
        hallcalls.down@[i]
    } else {
        false
    }]
}

/// A copy of a list of flags.
fn copy_flags(v: &Vec<bool>) -> (r: Vec<bool>)
    ensures
        r@ == v@,
{
    let mut r: Vec<bool> = Vec::new();
    let mut i: usize = 0;
    while i < v.len()
        invariant
            i <= v.len(),
            r@ == v@.take(i as int),
        decreases v.len() - i,
    {
        r.push(v[i]);
        proof {
            assert(r@ =~= v@.take(i + 1));
        }
        i += 1;
    }
    proof {
        assert(v@.take(v.len() as int) =~= v@);
    }
    r
}

/// The `[up, down]` rows of the hall calls, one per floor of `hallcalls.up`.
fn hall_matrix(hallcalls: &HallCalls) -> (hall_requests: Vec<Vec<bool>>)
    ensures
        hall_requests@.len() == hallcalls.up@.len(),
        forall|i: int|
            0 <= i < hall_requests@.len() ==> (#[trigger] hall_requests@[i])@ == hall_row(*hallcalls, i),
{
    let mut hall_requests: Vec<Vec<bool>> = Vec::new();
    let mut i: usize = 0;
    while i < hallcalls.up.len()
        invariant
            i <= hallcalls.up.len(),
            hall_requests@.len() == i,
            forall|g: int| 0 <= g < i ==> (#[trigger] hall_requests@[g])@ == hall_row(*hallcalls, g),
        decreases hallcalls.up.len() - i,
    {
        let up = hallcalls.up[i];
        let down = if i < hallcalls.down.len() {
            hallcalls.down[i]
        } else {
            false
        };
        let mut floor_requests: Vec<bool> = Vec::new();
        floor_requests.push(up);
        floor_requests.push(down);
        proof {
            assert(floor_requests@ =~= hall_row(*hallcalls, i as int));
        }
        hall_requests.push(floor_requests);
        i += 1;
    }
    hall_requests
}

/// The assigner's input for these elevators and hall calls: one `[up,
/// down]` row per floor of `hallcalls.up`, and one entry per elevator whose
/// id is not 0, in no particular order.
pub fn convert_matrix_to_json(elevators: &Elevators, hallcalls: &HallCalls) -> (r: MatrixInput)
    ensures
        r.hall_requests@.len() == hallcalls.up@.len(),
        forall|i: int|
            0 <= i < r.hall_requests@.len() ==> (#[trigger] r.hall_requests@[i])@ == hall_row(*hallcalls, i),
        forall|j: int|
            0 <= j < r.states@.len() ==> {
                let e = #[trigger] r.states@[j];
                e.id != 0 && elevators.elevators@.contains_key(e.id) && describes_entry(
                    e,
                    e.id,
                    elevators.elevators@[e.id],
                )
            },
        forall|id: i8|
            id != 0 && #[trigger] elevators.elevators@.contains_key(id) ==> exists|j: int|
                0 <= j < r.states@.len() && (#[trigger] r.states@[j]).id == id,
        forall|j1: int, j2: int|
            0 <= j1 < r.states@.len() && 0 <= j2 < r.states@.len() && j1 != j2 ==> (#[trigger] r.states@[j1]).id
                != (#[trigger] r.states@[j2]).id,
{
    let ids = table_ids(&elevators.elevators);
    let ghost m = elevators.elevators@;
    let mut states: Vec<MatrixState> = Vec::new();
    let mut n: usize = 0;
    while n < ids.len()
        invariant
            n <= ids.len(),
            m == elevators.elevators@,
            ids@.no_duplicates(),
            forall|k: i8| ids@.contains(k) <==> m.contains_key(k),
            forall|j: int|
                0 <= j < states@.len() ==> {
                    let e = #[trigger] states@[j];
                    e.id != 0 && m.contains_key(e.id) && describes_entry(e, e.id, m[e.id]) && ids@.take(
                        n as int,
                    ).contains(e.id)
                },
            forall|id: i8|
                id != 0 && #[trigger] ids@.take(n as int).contains(id) ==> exists|j: int|
                    0 <= j < states@.len() && (#[trigger] states@[j]).id == id,
            forall|j1: int, j2: int|
                0 <= j1 < states@.len() && 0 <= j2 < states@.len() && j1 != j2 ==> (#[trigger] states@[j1]).id
                    != (#[trigger] states@[j2]).id,
        decreases ids.len() - n,
    {
        let id = ids[n];
        let ghost before = states@;
        proof {
            assert(ids@.take(n + 1) =~= ids@.take(n as int).push(id));
            lemma_take_push_contains(ids@, n as int);
            assert(ids@.contains(id));
            assert(!ids@.take(n as int).contains(id)) by {
                if ids@.take(n as int).contains(id) {
                    let j = choose|j: int| 0 <= j < n && ids@[j] == id;
                    assert(ids@[j] == ids@[n as int]);
                }
            }
        }
        if id != 0 {
            let elevstate = match elevators.elevators.get(&id) {
                Some(s) => s,
                None => {
                    assert(false);
                    return MatrixInput { hall_requests: Vec::new(), states };
                },
            };
            let entry = MatrixState {
                id,
                key: id_key(id),
                behavior: elevstate.behavior.clone(),
                floor: elevstate.floor,
                direction: elevstate.direction.clone(),
                cab_requests: copy_flags(&elevstate.cab_requests),
            };
            states.push(entry);
            proof {
                assert(states@[before.len() as int] == entry);
                assert forall|k: i8|
                    k != 0 && #[trigger] ids@.take(n + 1).contains(k) implies exists|j: int|
                        0 <= j < states@.len() && (#[trigger] states@[j]).id == k by {
                    if k == id {
                        assert(states@[before.len() as int].id == k);
                    } else {
                        assert(ids@.take(n as int).contains(k));
                        let j = choose|j: int| 0 <= j < before.len() && (#[trigger] before[j]).id == k;
                        assert(states@[j] == before[j]);
                    }
                }
                assert forall|j: int| 0 <= j < states@.len() implies ({
                    let e = #[trigger] states@[j];
                    e.id != 0 && m.contains_key(e.id) && describes_entry(e, e.id, m[e.id]) && ids@.take(
                        n + 1,
                    ).contains(e.id)
                }) by {
                    if j < before.len() {
                        assert(states@[j] == before[j]);
                    }
                }
            }
        } else {
            proof {
                assert forall|j: int| 0 <= j < states@.len() implies ({
                    let e = #[trigger] states@[j];
                    e.id != 0 && m.contains_key(e.id) && describes_entry(e, e.id, m[e.id]) && ids@.take(
                        n + 1,
                    ).contains(e.id)
                }) by {}
                assert forall|k: i8|
                    k != 0 && #[trigger] ids@.take(n + 1).contains(k) implies exists|j: int|
                        0 <= j < states@.len() && (#[trigger] states@[j]).id == k by {
                    assert(ids@.take(n as int).contains(k));
                }
            }
        }
        n += 1;
    }
    proof {
        assert(ids@.take(ids.len() as int) =~= ids@);
        assert forall|id: i8| id != 0 && #[trigger] elevators.elevators@.contains_key(id) implies exists|j: int|
            0 <= j < states@.len() && (#[trigger] states@[j]).id == id by {
            assert(ids@.contains(id));
            assert(ids@.take(n as int).contains(id));
        }
    }
    let hall_requests = hall_matrix(hallcalls);
    let ghost st = states@;
    let r = MatrixInput { hall_requests, states };
    proof {
        assert(r.states@ == st);
        assert forall|id: i8| id != 0 && #[trigger] elevators.elevators@.contains_key(id) implies exists|j: int|
            0 <= j < r.states@.len() && (#[trigger] r.states@[j]).id == id by {
            let j = choose|j: int| 0 <= j < st.len() && (#[trigger] st[j]).id == id;
            assert(r.states@[j].id == id);
        }
    }
    r
}

/// Membership in a prefix grown by one element.
proof fn lemma_take_push_contains<A>(s: Seq<A>, n: int)
    requires
        0 <= n < s.len(),
    ensures
        forall|x: A| #[trigger] s.take(n + 1).contains(x) <==> (s.take(n).contains(x) || x == s[n]),
{
    assert(s.take(n + 1) =~= s.take(n).push(s[n]));
    crate::manager::lemma_push_contains(s.take(n), s[n]);
}

/// The value of the last member under `key`.
pub open spec fn last_value(members: Seq<(Seq<char>, Seq<char>)>, key: Seq<char>) -> Option<Seq<char>>
    decreases members.len(),
{
    if members.len() == 0 {
        None
    } else if members.last().0 == key {
        Some(members.last().1)
    } else {
        last_value(members.drop_last(), key)
    }
}

/// The two flags an element of an elevator's list contributes: nothing for
/// a non-array, its first two booleans for an array; `None` for an array
/// whose first two elements are not both booleans.
pub open spec fn pair_bits(element: Seq<char>) -> Option<Seq<bool>> {
    match spec_json_array_elements(element) {
        None => Some(Seq::empty()),
        Some(items) => if items.len() >= 2 && spec_json_bool(items[0]) is Some && spec_json_bool(
            items[1],
        ) is Some {
            Some(seq![spec_json_bool(items[0])->0, spec_json_bool(items[1])->0])
        } else {
            None
        },
    }
}

/// The flags of a list of elements, in order; `None` if one is malformed.
pub open spec fn row_bits(elements: Seq<Seq<char>>) -> Option<Seq<bool>>
    decreases elements.len(),
{
    if elements.len() == 0 {
        Some(Seq::empty())
    } else {
        match (row_bits(elements.drop_last()), pair_bits(elements.last())) {
            (Some(a), Some(b)) => Some(a + b),
            _ => None,
        }
    }
}

/// The row of elevator `id_<slot>`: empty when absent; `None` when its
/// value is not an array or holds a malformed element.
pub open spec fn slot_row(members: Seq<(Seq<char>, Seq<char>)>, slot: int) -> Option<Seq<bool>> {
    match last_value(members, id_key_text(slot)) {
        None => Some(Seq::empty()),
        Some(v) => match spec_json_array_elements(v) {
            None => None,
            Some(elements) => row_bits(elements),
        },
    }
}

/// The rows of elevators `id_1` to `id_4` in the assigner's output `text`:
/// `None` for text that is not JSON or holds a malformed row; four empty
/// rows for JSON that is not an object.
pub open spec fn json_matrix(text: Seq<char>) -> Option<Seq<Seq<bool>>> {
    if !spec_json_valid(text) {
        None
    } else {
        match spec_json_object_members(text) {
            None => Some(seq![Seq::empty(), Seq::empty(), Seq::empty(), Seq::empty()]),
            Some(members) => members_matrix(members),
        }
    }
}

/// The rows of elevators `id_1` to `id_4` held by the members of the
/// output object; `None` when one of them is malformed.
pub open spec fn members_matrix(members: Seq<(Seq<char>, Seq<char>)>) -> Option<Seq<Seq<bool>>> {
    if forall|s: int| 1 <= s <= 4 ==> #[trigger] slot_row(members, s) is Some {
        Some(Seq::new(4, |j: int| slot_row(members, j + 1)->0))
    } else {
        None
    }
}

/// The mathematical form of a matrix of flags.
pub open spec fn matrix_view(m: Seq<Vec<bool>>) -> Seq<Seq<bool>> {
    m.map_values(|row: Vec<bool>| row@)
}

/// Whether `key` is `"id_<slot>"`.
fn is_slot_key(key: &str, slot: u8) -> (r: bool)
    requires
        1 <= slot <= 4,
    ensures
        r == (key@ == id_key_text(slot as int)),
{
    let digit = if slot == 1 {
        '1'
    } else if slot == 2 {
        '2'
    } else if slot == 3 {
        '3'
    } else {
        '4'
    };
    proof {
        assert(id_key_text(slot as int) =~= seq!['i', 'd', '_', digit]);
    }
    let r = key.unicode_len() == 4 && key.get_char(0) == 'i' && key.get_char(1) == 'd' && key.get_char(2)
        == '_' && key.get_char(3) == digit;
    proof {
        if r {
            assert(key@ =~= seq!['i', 'd', '_', digit]);
        }
    }
    r
}

/// Index of the last member under `"id_<slot>"`.
fn last_member(members: &Vec<(String, String)>, slot: u8) -> (r: Option<usize>)
    requires
        1 <= slot <= 4,
    ensures
        match r {
            Some(x) => x < members@.len() && last_value(pairs_view(members@), id_key_text(slot as int)) == Some(
                members@[x as int].1@,
            ),
            None => last_value(pairs_view(members@), id_key_text(slot as int)) is None,
        },
{
    let ghost ms = pairs_view(members@);
    let ghost key = id_key_text(slot as int);
    let mut found: Option<usize> = None;
    let mut j: usize = 0;
    while j < members.len()
        invariant
            j <= members.len(),
            ms == pairs_view(members@),
            key == id_key_text(slot as int),
            1 <= slot <= 4,
            match found {
                Some(x) => x < j && last_value(ms.take(j as int), key) == Some(members@[x as int].1@),
                None => last_value(ms.take(j as int), key) is None,
            },
        decreases members.len() - j,
    {
        proof {
            assert(ms.take(j + 1).drop_last() =~= ms.take(j as int));
            assert(ms.take(j + 1).last() == ms[j as int]);
        }
        if is_slot_key(members[j].0.as_str(), slot) {
            found = Some(j);
        }
        j += 1;
    }
    proof {
        assert(ms.take(members.len() as int) =~= ms);
    }
    found
}

/// A malformed element makes the whole list malformed.
proof fn lemma_row_bits_prefix_none(elements: Seq<Seq<char>>, k: int)
    requires
        0 <= k <= elements.len(),
        row_bits(elements.take(k)) is None,
    ensures
        row_bits(elements) is None,
    decreases elements.len() - k,
{
    if k == elements.len() {
        assert(elements.take(k) =~= elements);
    } else {
        assert(elements.take(k + 1).drop_last() =~= elements.take(k));
        lemma_row_bits_prefix_none(elements, k + 1);
    }
}

/// The flags of an elevator's list of `[up, down]` elements; see [`row_bits`].
fn row_from_elements(elements: &Vec<String>) -> (r: Option<Vec<bool>>)
    ensures
        match r {
            Some(row) => row_bits(texts_view(elements@)) == Some(row@),
            None => row_bits(texts_view(elements@)) is None,
        },
{
    let ghost es = texts_view(elements@);
    let mut row: Vec<bool> = Vec::new();
    let mut j: usize = 0;
    while j < elements.len()
        invariant
            j <= elements.len(),
            es == texts_view(elements@),
            row_bits(es.take(j as int)) == Some(row@),
        decreases elements.len() - j,
    {
        proof {
            assert(es.take(j + 1).drop_last() =~= es.take(j as int));
            assert(es.take(j + 1).last() == es[j as int]);
        }
        match json_array_elements(elements[j].as_str()) {
            None => {
                proof {
                    assert(row@ + Seq::<bool>::empty() =~= row@);
                }
            },
            Some(items) => {
                if items.len() < 2 {
                    proof {
                        lemma_row_bits_prefix_none(es, j + 1);
                    }
                    return None;
                }
                let b0 = match json_bool(items[0].as_str()) {
                    Some(b) => b,
                    None => {
                        proof {
                            lemma_row_bits_prefix_none(es, j + 1);
                        }
                        return None;
                    },
                };
                let b1 = match json_bool(items[1].as_str()) {
                    Some(b) => b,
                    None => {
                        proof {
                            lemma_row_bits_prefix_none(es, j + 1);
                        }
                        return None;
                    },
                };
                let ghost before = row@;
                row.push(b0);
                row.push(b1);
                proof {
                    assert(row@ =~= before + seq![b0, b1]);
                }
            },
        }
        j += 1;
    }
    proof {
        assert(es.take(elements.len() as int) =~= es);
    }
    Some(row)
}

/// The rows of elevators `id_1` to `id_4` in the assigner's output; see
/// [`json_matrix`]. `None` where the text is not JSON or a row is malformed.
pub fn convert_json_to_matrix(output_json: &str) -> (r: Option<Vec<Vec<bool>>>)
    ensures
        match r {
            Some(m) => json_matrix(output_json@) == Some(matrix_view(m@)),
            None => json_matrix(output_json@) is None,
        },
{
    if !json_valid(output_json) {
        return None;
    }
    let members = match json_object_members(output_json) {
        Some(m) => m,
        None => {
            let m: Vec<Vec<bool>> = vec![Vec::new(), Vec::new(), Vec::new(), Vec::new()];
            proof {
                assert(matrix_view(m@) =~= seq![Seq::empty(), Seq::empty(), Seq::empty(), Seq::empty()]);
            }
            return Some(m);
        },
    };
    matrix_from_members(&members)
}

/// The rows of elevators `id_1` to `id_4` held by the members of the
/// assigner's output object, each a key and the raw text of its value; see
/// [`members_matrix`].
pub fn matrix_from_members(members: &Vec<(String, String)>) -> (r: Option<Vec<Vec<bool>>>)
    ensures
        match r {
            Some(m) => members_matrix(pairs_view(members@)) == Some(matrix_view(m@)),
            None => members_matrix(pairs_view(members@)) is None,
        },
{
    let ghost ms = pairs_view(members@);
    let mut matrix: Vec<Vec<bool>> = Vec::new();
    let mut slot: u8 = 1;
    while slot <= 4
        invariant
            1 <= slot <= 5,
            ms == pairs_view(members@),
            matrix@.len() == slot - 1,
            forall|s: int| 1 <= s < slot ==> (#[trigger] slot_row(ms, s)) == Some(matrix@[s - 1]@),
        decreases 5 - slot,
    {
        let row = match last_member(members, slot) {
            None => Vec::new(),
            Some(x) => match json_array_elements(members[x].1.as_str()) {
                None => {
                    proof {
                        assert(slot_row(ms, slot as int) is None);
                    }
                    return None;
                },
                Some(elements) => match row_from_elements(&elements) {
                    Some(row) => row,
                    None => {
                        proof {
                            assert(slot_row(ms, slot as int) is None);
                        }
                        return None;
                    },
                },
            },
        };
        proof {
            assert(slot_row(ms, slot as int) == Some(row@));
        }
        matrix.push(row);
        slot += 1;
    }
    proof {
        assert(matrix_view(matrix@) =~= Seq::new(4, |j: int| slot_row(ms, j + 1)->0));
    }
    Some(matrix)
}

} // verus!
