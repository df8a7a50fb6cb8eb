//! The property catalog of the SQLite store: which property each numeric id
//! names, and how its values are stored.
use vstd::prelude::*;
use std::collections::HashMap;
use crate::config::{copy_text, text_eq};

verus! {

broadcast use vstd::std_specs::hash::group_hash_axioms;

/// One entry of the property catalog: `(Id, Name, StorageType)`.
#[derive(Clone, Debug)]
pub struct PropertyMeta {
    pub id: i64,
    pub name: String,
    pub storage_type: i64,
}

/// The last of the first `n` catalog rows whose id is `id`.
pub open spec fn last_with_id(rows: Seq<PropertyMeta>, id: i64, n: int) -> Option<int>
    decreases n,
{
    if n <= 0 {
        None
    } else if rows[n - 1].id == id {
        Some(n - 1)
    } else {
        last_with_id(rows, id, n - 1)
    }
}

/// The last of the first `n` catalog rows whose name is `name`.
pub open spec fn last_with_name(rows: Seq<PropertyMeta>, name: Seq<char>, n: int) -> Option<int>
    decreases n,
{
    if n <= 0 {
        None
    } else if rows[n - 1].name@ == name {
        Some(n - 1)
    } else {
        last_with_name(rows, name, n - 1)
    }
}

/// The name-to-id entries as text.
pub open spec fn names_view(v: Seq<(String, i64)>) -> Seq<(Seq<char>, i64)> {
    v.map_values(|e: (String, i64)| (e.0@, e.1))
}

/// The id that a name-to-id list gives `name`.
pub open spec fn id_of_name(v: Seq<(Seq<char>, i64)>, name: Seq<char>) -> Option<i64> {
    if exists|i: int| 0 <= i < v.len() && v[i].0 == name {
        Some(v[choose|i: int| 0 <= i < v.len() && v[i].0 == name].1)
    } else {
        None
    }
}

/// Whether no name appears twice.
pub open spec fn names_unique(v: Seq<(Seq<char>, i64)>) -> bool {
    forall|i: int, j: int| 0 <= i < v.len() && 0 <= j < v.len() && v[i].0 == v[j].0 ==> i == j
}

/// Sets the id of `name`, replacing an earlier one.
fn upsert_name(v: &mut Vec<(String, i64)>, name: &String, id: i64)
    requires
        names_unique(names_view(old(v)@)),
    ensures
        names_unique(names_view(final(v)@)),
        id_of_name(names_view(final(v)@), name@) == Some(id),
        forall|n: Seq<char>| n != name@ ==> id_of_name(names_view(final(v)@), n) == id_of_name(
            names_view(old(v)@),
            n,
        ),
{
    let mut i: usize = 0;
    while i < v.len()
        invariant
            v@ == old(v)@,
            names_unique(names_view(old(v)@)),
            i <= v@.len(),
            forall|k: int| 0 <= k < i ==> v@[k].0@ != name@,
        decreases v@.len() - i,
    {
        if text_eq(v[i].0.as_str(), name.as_str()) {
            let ghost before = names_view(v@);
            let t = copy_text(name);
            v.set(i, (t, id));
            proof {
                let after = names_view(v@);
                assert(after =~= before.update(i as int, (name@, id)));
                assert(after[i as int].0 == name@);
                assert forall|k: int| 0 <= k < after.len() implies #[trigger] after[k].0
                    == before[k].0 by {}
                assert forall|a: int, b: int|
                    0 <= a < after.len() && 0 <= b < after.len() && after[a].0 == after[b].0 implies a
                    == b by {
                    assert(before[a].0 == after[a].0);
                    assert(before[b].0 == after[b].0);
                }
                assert forall|n: Seq<char>| n != name@ implies id_of_name(after, n) == id_of_name(
                    before,
                    n,
                ) by {
                    if exists|k: int| 0 <= k < after.len() && after[k].0 == n {
                        let k1 = choose|k: int| 0 <= k < after.len() && after[k].0 == n;
                        assert(before[k1].0 == n);
                        let k2 = choose|k: int| 0 <= k < before.len() && before[k].0 == n;
                        assert(k1 == k2);
                        assert(k1 != i);
                        assert(after[k1] == before[k1]);
                    }
                    if exists|k: int| 0 <= k < before.len() && before[k].0 == n {
                        let k = choose|k: int| 0 <= k < before.len() && before[k].0 == n;
                        assert(after[k].0 == n);
                    }
                }
            }
            return;
        }
        i = i + 1;
    }
    let ghost before = names_view(v@);
    let t = copy_text(name);
    v.push((t, id));
    proof {
        let after = names_view(v@);
        assert(after =~= before.push((name@, id)));
        assert(after[before.len() as int].0 == name@);
        assert forall|n: Seq<char>| n != name@ implies id_of_name(after, n) == id_of_name(before, n) by {
            if exists|k: int| 0 <= k < after.len() && after[k].0 == n {
                let k = choose|k: int| 0 <= k < after.len() && after[k].0 == n;
                assert(before[k].0 == n);
            }
            if exists|k: int| 0 <= k < before.len() && before[k].0 == n {
                let k = choose|k: int| 0 <= k < before.len() && before[k].0 == n;
                assert(after[k].0 == n);
            }
        }
    }
}

/// Fills the id-to-property and name-to-id maps from the property catalog;
/// a later row with the same id or name replaces an earlier one.
pub fn populate_property_id_maps(
    rows: &Vec<PropertyMeta>,
    id_to_prop: &mut HashMap<i64, (String, i64)>,
    name_to_id: &mut Vec<(String, i64)>,
)
    requires
        names_unique(names_view(old(name_to_id)@)),
    ensures
        names_unique(names_view(final(name_to_id)@)),
        forall|id: i64| #[trigger] final(id_to_prop)@.contains_key(id) <==> (old(id_to_prop)@.contains_key(id)
            || last_with_id(rows@, id, rows@.len() as int) is Some),
        forall|id: i64| #[trigger] last_with_id(rows@, id, rows@.len() as int) matches Some(k) ==> (
            final(id_to_prop)@[id].0@ == rows@[k].name@ && final(id_to_prop)@[id].1
                == rows@[k].storage_type),
        forall|id: i64| last_with_id(rows@, id, rows@.len() as int) is None ==> #[trigger] final(id_to_prop)@[id]
            == old(id_to_prop)@[id],
        forall|name: Seq<char>| #[trigger] last_with_name(rows@, name, rows@.len() as int) matches Some(k)
            ==> id_of_name(names_view(final(name_to_id)@), name) == Some(rows@[k].id),
        forall|name: Seq<char>| last_with_name(rows@, name, rows@.len() as int) is None ==> #[trigger] id_of_name(
            names_view(final(name_to_id)@),
            name,
        ) == id_of_name(names_view(old(name_to_id)@), name),
{
    let mut i: usize = 0;
    while i < rows.len()
        invariant
            i <= rows@.len(),
            names_unique(names_view(name_to_id@)),
            forall|id: i64| #[trigger] id_to_prop@.contains_key(id) <==> (old(id_to_prop)@.contains_key(id)
                || last_with_id(rows@, id, i as int) is Some),
            forall|id: i64| #[trigger] last_with_id(rows@, id, i as int) matches Some(k) ==> (
                id_to_prop@[id].0@ == rows@[k].name@ && id_to_prop@[id].1 == rows@[k].storage_type),
            forall|id: i64| last_with_id(rows@, id, i as int) is None ==> #[trigger] id_to_prop@[id]
                == old(id_to_prop)@[id],
            forall|name: Seq<char>| #[trigger] last_with_name(rows@, name, i as int) matches Some(k)
                ==> id_of_name(names_view(name_to_id@), name) == Some(rows@[k].id),
            forall|name: Seq<char>| last_with_name(rows@, name, i as int) is None ==> #[trigger] id_of_name(
                names_view(name_to_id@),
                name,
            ) == id_of_name(names_view(old(name_to_id)@), name),
        decreases rows@.len() - i,
    {
        let row = &rows[i];
        let name = copy_text(&row.name);
        id_to_prop.insert(row.id, (name, row.storage_type));
        upsert_name(name_to_id, &row.name, row.id);
        proof {
            assert forall|id: i64| #[trigger] last_with_id(rows@, id, i + 1) is Some implies (
            id_to_prop@[id].0@ == rows@[last_with_id(rows@, id, i + 1)->0].name@ && id_to_prop@[id].1
                == rows@[last_with_id(rows@, id, i + 1)->0].storage_type) by {
                if id != row.id {
                    assert(last_with_id(rows@, id, i + 1) == last_with_id(rows@, id, i as int));
                }
            }
            assert forall|name: Seq<char>| #[trigger] last_with_name(rows@, name, i + 1) is Some
                implies id_of_name(names_view(name_to_id@), name) == Some(
                rows@[last_with_name(rows@, name, i + 1)->0].id,
            ) by {
                if name != row.name@ {
                    assert(last_with_name(rows@, name, i + 1) == last_with_name(rows@, name, i as int));
                }
            }
        }
        i = i + 1;
    }
}

} // verus!
