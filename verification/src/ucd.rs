//! Lookups in the Unicode property tables.
//!
//! The tables map lowercased names to code point ranges: binary properties,
//! general categories and scripts by name, the one-letter general categories,
//! and named categories (such as `script` or `gc`) to their values.  A lookup
//! finds the first entry whose name equals the key.
use vstd::prelude::*;
use crate::error::{ErrorModel, GenerateError};
use crate::range_spec::char_spans;

verus! {

/// A name with the code point ranges it stands for.
#[derive(Clone, Debug)]
pub struct UcdEntry {
    pub name: String,
    pub ranges: Vec<(char, char)>,
}

/// A category (such as `script`) with its values.
#[derive(Debug)]
pub struct UcdCategory {
    pub name: String,
    pub values: Vec<UcdEntry>,
}

/// The property tables that `\p{..}` classes are looked up in.
#[derive(Debug)]
pub struct UcdTables {
    /// `\pL`
    pub gc_letter: Vec<(char, char)>,
    /// `\pM`
    pub gc_mark: Vec<(char, char)>,
    /// `\pN`
    pub gc_number: Vec<(char, char)>,
    /// `\pP`
    pub gc_punctuation: Vec<(char, char)>,
    /// `\pS`
    pub gc_symbol: Vec<(char, char)>,
    /// `\pZ`
    pub gc_separator: Vec<(char, char)>,
    /// `\pC`
    pub gc_other: Vec<(char, char)>,
    /// Binary properties, such as `ahex`.
    pub binary_names: Vec<UcdEntry>,
    /// General categories, such as `lu`.
    pub general_category: Vec<UcdEntry>,
    /// Scripts, such as `greek`.
    pub script: Vec<UcdEntry>,
    /// Categories with values, such as `script` with `greek`.
    pub categories: Vec<UcdCategory>,
}

/// The lowercase form of a string, as `str::to_lowercase` computes it.
pub uninterp spec fn lowercase_of(s: Seq<char>) -> Seq<char>;

/// `str::to_lowercase`.  Claimed of std: the result is a function of the
/// input alone, named `lowercase_of`; what that function is (the Unicode
/// lowercase mapping) is not stated.
#[verifier::external_body]
fn str_to_lowercase(s: &str) -> (r: String)
    ensures
        r@ == lowercase_of(s@),
{
    s.to_lowercase()
}

/// The ranges of the first entry named `key`.
pub open spec fn entry_lookup(entries: Seq<UcdEntry>, key: Seq<char>) -> Option<Seq<(int, int)>>
    decreases entries.len(),
{
    if entries.len() == 0 {
        None
    } else if entries[0].name@ == key {
        Some(char_spans(entries[0].ranges@))
    } else {
        entry_lookup(entries.drop_first(), key)
    }
}

/// The values of the first category named `key`.
pub open spec fn category_lookup(cats: Seq<UcdCategory>, key: Seq<char>) -> Option<Seq<UcdEntry>>
    decreases cats.len(),
{
    if cats.len() == 0 {
        None
    } else if cats[0].name@ == key {
        Some(cats[0].values@)
    } else {
        category_lookup(cats.drop_first(), key)
    }
}

/// What `ucd_category` gives: the values of the category named by the
/// lowercased `name`, or `UnknownCategory` with the lowercased name.
pub open spec fn category_of(t: UcdTables, name: Seq<char>) -> Result<Seq<UcdEntry>, ErrorModel> {
    let key = lowercase_of(name);
    match category_lookup(t.categories@, key) {
        Some(values) => Ok(values),
        None => Err(ErrorModel::UnknownCategory(key)),
    }
}

/// What `ucd_ranges_from_category` gives.
pub open spec fn ranges_from_category(t: UcdTables, property: Seq<char>, value: Seq<char>) -> Result<
    Seq<(int, int)>,
    ErrorModel,
> {
    let v = lowercase_of(value);
    match category_of(t, property) {
        Err(e) => Err(e),
        Ok(values) => match entry_lookup(values, v) {
            Some(r) => Ok(r),
            None => Err(ErrorModel::UnknownPropertyValue(property, v)),
        },
    }
}

/// What `ucd_ranges_from_name` gives: binary properties first, then general
/// categories, then scripts, looked up by the lowercased name; an empty name
/// is an error.
pub open spec fn ranges_from_name(t: UcdTables, name: Seq<char>) -> Result<Seq<(int, int)>, ErrorModel> {
    let key = lowercase_of(name);
    if name.len() == 0 {
        Err(ErrorModel::EmptyPropertyName)
    } else {
        match entry_lookup(t.binary_names@, key) {
            Some(r) => Ok(r),
            None => match entry_lookup(t.general_category@, key) {
                Some(r) => Ok(r),
                None => match entry_lookup(t.script@, key) {
                    Some(r) => Ok(r),
                    None => Err(ErrorModel::UnknownProperty(key)),
                },
            },
        }
    }
}

/// The ranges of the first entry named `key`.
fn find_entry<'a>(entries: &'a Vec<UcdEntry>, key: &String) -> (r: Option<&'a Vec<(char, char)>>)
    ensures
        match r {
            Some(v) => entry_lookup(entries@, key@) == Some(char_spans(v@)),
            None => entry_lookup(entries@, key@) is None,
        },
{
    let mut i: usize = 0;
    proof {
        assert(entries@.skip(0) =~= entries@);
    }
    while i < entries.len()
        invariant
            i <= entries@.len(),
            entry_lookup(entries@, key@) == entry_lookup(entries@.skip(i as int), key@),
        decreases entries@.len() - i,
    {
        let e = &entries[i];
        proof {
            assert(entries@.skip(i as int)[0] == entries@[i as int]);
            assert(entries@.skip(i as int).drop_first() =~= entries@.skip(i + 1));
        }
        if e.name == *key {
            return Some(&e.ranges);
        }
        i += 1;
    }
    proof {
        assert(entries@.skip(i as int).len() == 0);
    }
    None
}

/// The values of the first category named `key`.
fn find_category<'a>(cats: &'a Vec<UcdCategory>, key: &String) -> (r: Option<&'a Vec<UcdEntry>>)
    ensures
        match r {
            Some(v) => category_lookup(cats@, key@) == Some(v@),
            None => category_lookup(cats@, key@) is None,
        },
{
    let mut i: usize = 0;
    proof {
        assert(cats@.skip(0) =~= cats@);
    }
    while i < cats.len()
        invariant
            i <= cats@.len(),
            category_lookup(cats@, key@) == category_lookup(cats@.skip(i as int), key@),
        decreases cats@.len() - i,
    {
        let c = &cats[i];
        proof {
            assert(cats@.skip(i as int)[0] == cats@[i as int]);
            assert(cats@.skip(i as int).drop_first() =~= cats@.skip(i + 1));
        }
        if c.name == *key {
            return Some(&c.values);
        }
        i += 1;
    }
    proof {
        assert(cats@.skip(i as int).len() == 0);
    }
    None
}

/// The values of the category named by `name`, lowercased.
pub fn ucd_category<'a>(tables: &'a UcdTables, name: &str) -> (r: Result<&'a Vec<UcdEntry>, GenerateError>)
    ensures
        match r {
            Ok(values) => category_of(*tables, name@) == Ok::<Seq<UcdEntry>, ErrorModel>(values@),
            Err(e) => category_of(*tables, name@) == Err::<Seq<UcdEntry>, ErrorModel>(e@),
        },
{
    let key = str_to_lowercase(name);
    match find_category(&tables.categories, &key) {
        Some(values) => Ok(values),
        None => Err(GenerateError::UnknownCategory(key)),
    }
}

/// The ranges of the value `value` (lowercased) of the category `property`.
pub fn ucd_ranges_from_category<'a>(tables: &'a UcdTables, property: &str, value: &str) -> (r: Result<
    &'a [(char, char)],
    GenerateError,
>)
    ensures
        match r {
            Ok(v) => ranges_from_category(*tables, property@, value@) == Ok::<
                Seq<(int, int)>,
                ErrorModel,
            >(char_spans(v@)),
            Err(e) => ranges_from_category(*tables, property@, value@) == Err::<
                Seq<(int, int)>,
                ErrorModel,
            >(e@),
        },
{
    let value = str_to_lowercase(value);
    let values = ucd_category(tables, property)?;
    match find_entry(values, &value) {
        Some(ranges) => Ok(ranges.as_slice()),
        None => Err(GenerateError::UnknownPropertyValue(property.to_string(), value)),
    }
}

/// The ranges of the binary property, general category or script named
/// `name` (lowercased), looked up in that order; an empty name is an error.
pub fn ucd_ranges_from_name<'a>(tables: &'a UcdTables, name: &str) -> (r: Result<&'a [(char, char)], GenerateError>)
    ensures
        match r {
            Ok(v) => ranges_from_name(*tables, name@) == Ok::<Seq<(int, int)>, ErrorModel>(
                char_spans(v@),
            ),
            Err(e) => ranges_from_name(*tables, name@) == Err::<Seq<(int, int)>, ErrorModel>(e@),
        },
{
    if name.is_empty() {
        return Err(GenerateError::EmptyPropertyName);
    }
    let key = str_to_lowercase(name);
    match find_entry(&tables.binary_names, &key) {
        Some(r) => Ok(r.as_slice()),
        None => match find_entry(&tables.general_category, &key) {
            Some(r) => Ok(r.as_slice()),
            None => match find_entry(&tables.script, &key) {
                Some(r) => Ok(r.as_slice()),
                None => Err(GenerateError::UnknownProperty(key)),
            },
        },
    }
}

} // verus!
