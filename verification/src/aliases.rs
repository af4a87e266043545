//! The alias table of the polyfill store: a JSON object that maps an alias
//! to the names of the polyfills it stands for.
use vstd::prelude::*;
use std::collections::HashMap;
use crate::text::strs;

verus! {

#[verifier::external_type_specification]
#[verifier::external_body]
pub struct ExJsonError(serde_json::Error);

/// The alias table that `bytes` hold as JSON, or `None` where they are not a
/// JSON object of string arrays.
pub uninterp spec fn json_alias_table(bytes: Seq<u8>) -> Option<Map<Seq<char>, Seq<Seq<char>>>>;

/// The keys of alias entries.
pub open spec fn alias_keys(entries: Seq<(String, Vec<String>)>) -> Seq<Seq<char>> {
    entries.map_values(|e: (String, Vec<String>)| e.0@)
}

/// The map that alias entries with distinct keys make.
pub open spec fn alias_map(entries: Seq<(String, Vec<String>)>) -> Map<Seq<char>, Seq<Seq<char>>> {
    Map::new(
        |k: Seq<char>| alias_keys(entries).contains(k),
        |k: Seq<char>| strs(entries[alias_keys(entries).index_of(k)].1@),
    )
}

/// Parses the alias table with `serde_json::from_slice` into a
/// `HashMap<String, Vec<String>>`, handing out its entries in the map's
/// (unspecified) order. The entries' map is the named table; the JSON error
/// is passed on as it is.
#[verifier::external_body]
fn parse_alias_table(bytes: &[u8]) -> (r: Result<Vec<(String, Vec<String>)>, serde_json::Error>)
    ensures
        match r {
            Ok(v) => alias_keys(v@).no_duplicates() && json_alias_table(bytes@) == Some(alias_map(v@)),
            Err(_) => json_alias_table(bytes@) is None,
        },
{
    match serde_json::from_slice::<HashMap<String, Vec<String>>>(bytes) {
        Ok(m) => Ok(m.into_iter().collect()),
        Err(e) => Err(e),
    }
}

/// Why the alias table could not be read.
pub enum AliasError {
    /// The table is not valid JSON of the expected shape.
    Json(serde_json::Error),
}

/// The aliases of an optional list, taken by their characters.
pub open spec fn opt_strs(o: Option<Vec<String>>) -> Option<Seq<Seq<char>>> {
    match o {
        Some(l) => Some(strs(l@)),
        None => None,
    }
}

/// The names that `alias` stands for in `table`: those of its first entry.
pub fn find_aliases(entries: Vec<(String, Vec<String>)>, alias: &String) -> (r: Option<Vec<String>>)
    ensures
        r is None <==> !alias_keys(entries@).contains(alias@),
        r is Some ==> exists|i: int|
            0 <= i < entries@.len() && alias_keys(entries@)[i] == alias@
                && (forall|j: int| 0 <= j < i ==> alias_keys(entries@)[j] != alias@)
                && strs(r->0@) == strs(entries@[i].1@),
{
    let ghost t0 = entries@;
    let mut table = entries;
    assert(table@ == t0);
    let mut i: usize = 0;
    while i < table.len()
        invariant
            table@ == t0,
            t0 == entries@,
            i <= table.len(),
            forall|j: int| 0 <= j < i ==> alias_keys(t0)[j] != alias@,
        decreases table.len() - i,
    {
        if table[i].0 == *alias {
            assert(alias_keys(t0)[i as int] == alias@);
            let entry = table.swap_remove(i);
            assert(entry == t0[i as int]);
            assert(alias_keys(t0).contains(alias@));
            let r = Some(entry.1);
            assert(strs(r->0@) == strs(t0[i as int].1@));
            return r;
        }
        i = i + 1;
    }
    assert forall|j: int| 0 <= j < alias_keys(t0).len() implies alias_keys(t0)[j] != alias@ by {}
    None
}

/// The names that `alias` stands for, read from the alias table in `bytes`:
/// `None` where the table has no entry for it; an error where the table is
/// not valid.
pub fn get_config_aliases(bytes: &[u8], alias: &String) -> (r: Result<Option<Vec<String>>, AliasError>)
    ensures
        match json_alias_table(bytes@) {
            None => r is Err,
            Some(t) => r is Ok && opt_strs(r->Ok_0) == (if t.contains_key(alias@) {
                Some(t[alias@])
            } else {
                None
            }),
        },
{
    match parse_alias_table(bytes) {
        Ok(table) => {
            let ghost keys = alias_keys(table@);
            let ghost t0 = table@;
            let found = find_aliases(table, alias);
            proof {
                if found is Some {
                    let i = choose|i: int|
                        0 <= i < t0.len() && keys[i] == alias@
                            && (forall|j: int| 0 <= j < i ==> keys[j] != alias@)
                            && strs(found->0@) == strs(t0[i].1@);
                    assert(keys.index_of(alias@) == i);
                }
            }
            Ok(found)
        },
        Err(e) => Err(AliasError::Json(e)),
    }
}

} // verus!
