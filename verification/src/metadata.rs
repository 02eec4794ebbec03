//! The volume group description carried by the metadata text, and its
//! extraction from the parsed text.
//!
//! Each structure is read from the entries of one section. A field is the
//! assignment (or, for nested maps, the subsection) whose key is the field's
//! name; a required field that is absent, a field that occurs twice, and a
//! field whose value has the wrong shape are errors. Keys that name no field
//! are ignored. Name-keyed maps (volume groups, physical volumes, logical
//! volumes, segments) are built from the subsections of a section; later
//! subsections of the same name replace earlier ones.
use vstd::prelude::*;

use crate::namemap::{lemma_map_insert, lemma_map_insert_entries, map_insert, names_sorted, NameMap};
use crate::namemap::str_eq;
use crate::text::{
    entries_view, names_view, MetadataEntry, MetadataScalar, MetadataValue, SpecEntry, SpecScalar,
    SpecValue,
};

verus! {

broadcast use vstd::string::group_string_axioms;

// ---------------------------------------------------------------------------
// Field lookup

/// How a key occurs among the direct entries of a section.
pub enum FieldLookup {
    Absent,
    /// Exactly once; the value is `None` for a subsection.
    Found(Option<SpecValue>),
    Duplicate,
}

/// How the key `k` occurs among the entries of `es` that lie directly in the section `p`.
pub open spec fn find_field(es: Seq<SpecEntry>, p: Seq<Seq<char>>, k: Seq<char>) -> FieldLookup
    decreases es.len(),
{
    if es.len() == 0 {
        FieldLookup::Absent
    } else {
        let r = find_field(es.drop_last(), p, k);
        let e = es.last();
        if e.path == p && e.key == k {
            match r {
                FieldLookup::Absent => FieldLookup::Found(e.value),
                _ => FieldLookup::Duplicate,
            }
        } else {
            r
        }
    }
}

/// `a` and `b` name the same section.
pub fn same_path(a: &Vec<String>, b: &Vec<String>) -> (r: bool)
    ensures
        r == (names_view(a@) == names_view(b@)),
{
    if a.len() != b.len() {
        assert(names_view(a@).len() != names_view(b@).len());
        return false;
    }
    let mut i: usize = 0;
    while i < a.len()
        invariant
            i <= a@.len(),
            a@.len() == b@.len(),
            forall|j: int| 0 <= j < i ==> a@[j]@ == b@[j]@,
        decreases a@.len() - i,
    {
        if !str_eq(a[i].as_str(), b[i].as_str()) {
            assert(names_view(a@)[i as int] != names_view(b@)[i as int]);
            return false;
        }
        i = i + 1;
    }
    assert(names_view(a@) =~= names_view(b@));
    true
}

pub open spec fn lookup_result(es: Seq<SpecEntry>, r: Result<Option<usize>, ()>) -> FieldLookup {
    match r {
        Ok(None) => FieldLookup::Absent,
        Ok(Some(i)) => FieldLookup::Found(es[i as int].value),
        Err(_) => FieldLookup::Duplicate,
    }
}

/// The position of the single entry of section `p` keyed `k`: `Ok(None)`
/// when there is none, `Err(())` when there are several.
pub fn find_field_exec(es: &Vec<MetadataEntry>, p: &Vec<String>, k: &str) -> (r: Result<
    Option<usize>,
    (),
>)
    ensures
        lookup_result(entries_view(es@), r) == find_field(entries_view(es@), names_view(p@), k@),
        r matches Ok(Some(i)) ==> i < es@.len(),
{
    let ghost ev = entries_view(es@);
    let mut found: Option<usize> = None;
    let mut i: usize = 0;
    assert(ev.take(0) =~= Seq::<SpecEntry>::empty());
    while i < es.len()
        invariant
            ev == entries_view(es@),
            i <= es@.len(),
            found matches Some(f) ==> f < i,
            lookup_result(ev, Ok(found)) == find_field(ev.take(i as int), names_view(p@), k@),
        decreases es@.len() - i,
    {
        assert(ev.take(i + 1).drop_last() =~= ev.take(i as int));
        assert(ev.take(i + 1).last() == ev[i as int]);
        if same_path(&es[i].path, p) && str_eq(es[i].key.as_str(), k) {
            if found.is_some() {
                proof {
                    // Once two entries match, the lookup stays a duplicate.
                    lemma_duplicate_stays(ev, names_view(p@), k@, (i + 1) as int);
                }
                return Err(());
            }
            found = Some(i);
        }
        i = i + 1;
    }
    assert(ev.take(es@.len() as int) =~= ev);
    Ok(found)
}

pub proof fn lemma_duplicate_stays(es: Seq<SpecEntry>, p: Seq<Seq<char>>, k: Seq<char>, n: int)
    requires
        0 <= n <= es.len(),
        find_field(es.take(n), p, k) is Duplicate,
    ensures
        find_field(es, p, k) is Duplicate,
    decreases es.len() - n,
{
    if n < es.len() {
        assert(es.take(n + 1).drop_last() =~= es.take(n));
        lemma_duplicate_stays(es, p, k, n + 1);
    } else {
        assert(es.take(n) =~= es);
    }
}

// ---------------------------------------------------------------------------
// Field values

#[derive(Clone, Copy, Debug, PartialEq, Eq, Structural)]
pub enum FieldProblem {
    Missing,
    Duplicate,
    InvalidType,
}

/// Why a section could not be read as a structure: what is wrong, and with which field.
#[derive(Clone, Debug)]
pub struct FieldError {
    pub problem: FieldProblem,
    pub field: String,
}

pub struct SpecFieldError {
    pub problem: FieldProblem,
    pub field: Seq<char>,
}

impl View for FieldError {
    type V = SpecFieldError;

    open spec fn view(&self) -> SpecFieldError {
        SpecFieldError { problem: self.problem, field: self.field@ }
    }
}

pub open spec fn field_err(problem: FieldProblem, k: Seq<char>) -> SpecFieldError {
    SpecFieldError { problem, field: k }
}

fn make_err(problem: FieldProblem, k: &str) -> (e: FieldError)
    ensures
        e@ == field_err(problem, k@),
{
    FieldError { problem, field: k.to_owned() }
}

pub open spec fn value_num(v: Option<SpecValue>) -> Option<u64> {
    match v {
        Some(SpecValue::Scalar(SpecScalar::Num(n))) => Some(n),
        _ => None,
    }
}

pub open spec fn value_str(v: Option<SpecValue>) -> Option<Seq<char>> {
    match v {
        Some(SpecValue::Scalar(SpecScalar::Str(s))) => Some(s),
        _ => None,
    }
}

pub open spec fn scalar_str(x: SpecScalar) -> Seq<char> {
    match x {
        SpecScalar::Str(s) => s,
        SpecScalar::Num(_) => Seq::empty(),
    }
}

/// A list whose items are all strings.
pub open spec fn value_str_list(v: Option<SpecValue>) -> Option<Seq<Seq<char>>> {
    match v {
        Some(SpecValue::List(items)) => if forall|i: int|
            0 <= i < items.len() ==> #[trigger] items[i] is Str {
            Some(items.map_values(|x: SpecScalar| scalar_str(x)))
        } else {
            None
        },
        _ => None,
    }
}

/// A stripe list `[ "pv0", 0, "pv1", 0, ... ]`: at least one pair of a
/// physical volume name and an extent, alternating; yields its first pair.
pub open spec fn value_stripe(v: Option<SpecValue>) -> Option<(Seq<char>, u64)> {
    match v {
        Some(SpecValue::List(items)) => if items.len() >= 2 && items.len() % 2 == 0 && (forall|
            i: int,
        | 0 <= i < items.len() ==> (#[trigger] items[i] is Str) == (i % 2 == 0)) {
            match (items[0], items[1]) {
                (SpecScalar::Str(s), SpecScalar::Num(n)) => Some((s, n)),
                _ => None,
            }
        } else {
            None
        },
        _ => None,
    }
}

pub open spec fn req_num(es: Seq<SpecEntry>, p: Seq<Seq<char>>, k: Seq<char>) -> Result<u64, SpecFieldError> {
    match find_field(es, p, k) {
        FieldLookup::Absent => Err(field_err(FieldProblem::Missing, k)),
        FieldLookup::Duplicate => Err(field_err(FieldProblem::Duplicate, k)),
        FieldLookup::Found(v) => match value_num(v) {
            Some(n) => Ok(n),
            None => Err(field_err(FieldProblem::InvalidType, k)),
        },
    }
}

pub open spec fn opt_num(es: Seq<SpecEntry>, p: Seq<Seq<char>>, k: Seq<char>) -> Result<Option<u64>, SpecFieldError> {
    match find_field(es, p, k) {
        FieldLookup::Absent => Ok(None),
        FieldLookup::Duplicate => Err(field_err(FieldProblem::Duplicate, k)),
        FieldLookup::Found(v) => match value_num(v) {
            Some(n) => Ok(Some(n)),
            None => Err(field_err(FieldProblem::InvalidType, k)),
        },
    }
}

pub open spec fn req_str(es: Seq<SpecEntry>, p: Seq<Seq<char>>, k: Seq<char>) -> Result<Seq<char>, SpecFieldError> {
    match find_field(es, p, k) {
        FieldLookup::Absent => Err(field_err(FieldProblem::Missing, k)),
        FieldLookup::Duplicate => Err(field_err(FieldProblem::Duplicate, k)),
        FieldLookup::Found(v) => match value_str(v) {
            Some(s) => Ok(s),
            None => Err(field_err(FieldProblem::InvalidType, k)),
        },
    }
}

pub open spec fn opt_str(es: Seq<SpecEntry>, p: Seq<Seq<char>>, k: Seq<char>) -> Result<Option<Seq<char>>, SpecFieldError> {
    match find_field(es, p, k) {
        FieldLookup::Absent => Ok(None),
        FieldLookup::Duplicate => Err(field_err(FieldProblem::Duplicate, k)),
        FieldLookup::Found(v) => match value_str(v) {
            Some(s) => Ok(Some(s)),
            None => Err(field_err(FieldProblem::InvalidType, k)),
        },
    }
}

pub open spec fn req_str_list(es: Seq<SpecEntry>, p: Seq<Seq<char>>, k: Seq<char>) -> Result<Seq<Seq<char>>, SpecFieldError> {
    match find_field(es, p, k) {
        FieldLookup::Absent => Err(field_err(FieldProblem::Missing, k)),
        FieldLookup::Duplicate => Err(field_err(FieldProblem::Duplicate, k)),
        FieldLookup::Found(v) => match value_str_list(v) {
            Some(s) => Ok(s),
            None => Err(field_err(FieldProblem::InvalidType, k)),
        },
    }
}

pub open spec fn opt_stripe(es: Seq<SpecEntry>, p: Seq<Seq<char>>, k: Seq<char>) -> Result<Option<(Seq<char>, u64)>, SpecFieldError> {
    match find_field(es, p, k) {
        FieldLookup::Absent => Ok(None),
        FieldLookup::Duplicate => Err(field_err(FieldProblem::Duplicate, k)),
        FieldLookup::Found(v) => match value_stripe(v) {
            Some(s) => Ok(Some(s)),
            None => Err(field_err(FieldProblem::InvalidType, k)),
        },
    }
}

/// Whether the subsection `k` of `p` is present; a missing one is an error
/// when `required`, and `k` given as an assignment is an error.
pub open spec fn section_field(es: Seq<SpecEntry>, p: Seq<Seq<char>>, k: Seq<char>, required: bool) -> Result<bool, SpecFieldError> {
    match find_field(es, p, k) {
        FieldLookup::Absent => if required {
            Err(field_err(FieldProblem::Missing, k))
        } else {
            Ok(false)
        },
        FieldLookup::Duplicate => Err(field_err(FieldProblem::Duplicate, k)),
        FieldLookup::Found(v) => if v is None {
            Ok(true)
        } else {
            Err(field_err(FieldProblem::InvalidType, k))
        },
    }
}

pub open spec fn opt_view(o: Option<String>) -> Option<Seq<char>> {
    match o {
        Some(s) => Some(s@),
        None => None,
    }
}

pub open spec fn strings_view(v: Seq<String>) -> Seq<Seq<char>> {
    v.map_values(|s: String| s@)
}

fn get_field<'a>(es: &'a Vec<MetadataEntry>, p: &Vec<String>, k: &str, required: bool) -> (r: Result<Option<&'a Option<MetadataValue>>, FieldError>)
    ensures
        match r {
            Ok(None) => !required && find_field(entries_view(es@), names_view(p@), k@) is Absent,
            Ok(Some(v)) => find_field(entries_view(es@), names_view(p@), k@) == FieldLookup::Found(
                match v {
                    Some(x) => Some(x@),
                    None => None,
                },
            ),
            Err(e) => (e@ == field_err(FieldProblem::Missing, k@) && required && find_field(
                entries_view(es@),
                names_view(p@),
                k@,
            ) is Absent) || (e@ == field_err(FieldProblem::Duplicate, k@) && find_field(
                entries_view(es@),
                names_view(p@),
                k@,
            ) is Duplicate),
        },
{
    match find_field_exec(es, p, k) {
        Ok(None) => if required {
            Err(make_err(FieldProblem::Missing, k))
        } else {
            Ok(None)
        },
        Ok(Some(i)) => {
            assert(entries_view(es@)[i as int] == es@[i as int]@);
            Ok(Some(&es[i].value))
        },
        Err(()) => Err(make_err(FieldProblem::Duplicate, k)),
    }
}

fn num_of(v: &Option<MetadataValue>) -> (r: Option<u64>)
    ensures
        r == value_num(
            match v {
                Some(x) => Some(x@),
                None => None,
            },
        ),
{
    match v {
        Some(MetadataValue::Scalar(MetadataScalar::Num(n))) => Some(*n),
        _ => None,
    }
}

fn str_of(v: &Option<MetadataValue>) -> (r: Option<String>)
    ensures
        opt_view(r) == value_str(
            match v {
                Some(x) => Some(x@),
                None => None,
            },
        ),
{
    match v {
        Some(MetadataValue::Scalar(MetadataScalar::Str(s))) => Some(s.clone()),
        _ => None,
    }
}

#[verifier::loop_isolation(false)]
fn str_list_of(v: &Option<MetadataValue>) -> (r: Option<Vec<String>>)
    ensures
        match (r, value_str_list(
            match v {
                Some(x) => Some(x@),
                None => None,
            },
        )) {
            (Some(l), Some(sl)) => strings_view(l@) == sl,
            (None, None) => true,
            _ => false,
        },
{
    match v {
        Some(MetadataValue::List(items)) => {
            let ghost iv = items@.map_values(|x: MetadataScalar| x@);
            let mut out: Vec<String> = Vec::new();
            let mut i: usize = 0;
            while i < items.len()
                invariant
                    iv == items@.map_values(|x: MetadataScalar| x@),
                    i <= items@.len(),
                    forall|j: int| 0 <= j < i ==> #[trigger] iv[j] is Str,
                    strings_view(out@) == iv.take(i as int).map_values(
                        |x: SpecScalar| scalar_str(x),
                    ),
                decreases items@.len() - i,
            {
                assert(iv[i as int] == items@[i as int]@);
                match &items[i] {
                    MetadataScalar::Str(s) => {
                        let ghost before = out@;
                        out.push(s.clone());
                        assert(strings_view(out@) =~= strings_view(before).push(s@));
                        assert(iv.take(i + 1) =~= iv.take(i as int).push(iv[i as int]));
                        assert(strings_view(out@) =~= iv.take(i + 1).map_values(
                            |x: SpecScalar| scalar_str(x),
                        ));
                    },
                    MetadataScalar::Num(_) => {
                        assert(!(iv[i as int] is Str));
                        return None;
                    },
                }
                i = i + 1;
            }
            assert(iv.take(items@.len() as int) =~= iv);
            Some(out)
        },
        _ => None,
    }
}

#[verifier::loop_isolation(false)]
fn stripe_of(v: &Option<MetadataValue>) -> (r: Option<(String, u64)>)
    ensures
        match (r, value_stripe(
            match v {
                Some(x) => Some(x@),
                None => None,
            },
        )) {
            (Some((s, n)), Some((ss, sn))) => s@ == ss && n == sn,
            (None, None) => true,
            _ => false,
        },
{
    match v {
        Some(MetadataValue::List(items)) => {
            let ghost iv = items@.map_values(|x: MetadataScalar| x@);
            if items.len() < 2 || items.len() % 2 != 0 {
                return None;
            }
            let mut i: usize = 0;
            while i < items.len()
                invariant
                    iv == items@.map_values(|x: MetadataScalar| x@),
                    i <= items@.len(),
                    forall|j: int| 0 <= j < i ==> (#[trigger] iv[j] is Str) == (j % 2 == 0),
                decreases items@.len() - i,
            {
                assert(iv[i as int] == items@[i as int]@);
                let is_str = match &items[i] {
                    MetadataScalar::Str(_) => true,
                    MetadataScalar::Num(_) => false,
                };
                if is_str != (i % 2 == 0) {
                    return None;
                }
                i = i + 1;
            }
            assert(iv[0] == items@[0]@);
            assert(iv[1] == items@[1]@);
            match (&items[0], &items[1]) {
                (MetadataScalar::Str(s), MetadataScalar::Num(n)) => Some((s.clone(), *n)),
                _ => None,
            }
        },
        _ => None,
    }
}

fn req_num_exec(es: &Vec<MetadataEntry>, p: &Vec<String>, k: &str) -> (r: Result<u64, FieldError>)
    ensures
        match (r, req_num(entries_view(es@), names_view(p@), k@)) {
            (Ok(x), Ok(sx)) => x == sx,
            (Err(e), Err(se)) => e@ == se,
            _ => false,
        },
{
    match get_field(es, p, k, true)? {
        None => Err(make_err(FieldProblem::Missing, k)),
        Some(v) => match num_of(v) {
            Some(n) => Ok(n),
            None => Err(make_err(FieldProblem::InvalidType, k)),
        },
    }
}

fn opt_num_exec(es: &Vec<MetadataEntry>, p: &Vec<String>, k: &str) -> (r: Result<Option<u64>, FieldError>)
    ensures
        match (r, opt_num(entries_view(es@), names_view(p@), k@)) {
            (Ok(x), Ok(sx)) => x == sx,
            (Err(e), Err(se)) => e@ == se,
            _ => false,
        },
{
    match get_field(es, p, k, false)? {
        None => Ok(None),
        Some(v) => match num_of(v) {
            Some(n) => Ok(Some(n)),
            None => Err(make_err(FieldProblem::InvalidType, k)),
        },
    }
}

fn req_str_exec(es: &Vec<MetadataEntry>, p: &Vec<String>, k: &str) -> (r: Result<String, FieldError>)
    ensures
        match (r, req_str(entries_view(es@), names_view(p@), k@)) {
            (Ok(x), Ok(sx)) => x@ == sx,
            (Err(e), Err(se)) => e@ == se,
            _ => false,
        },
{
    match get_field(es, p, k, true)? {
        None => Err(make_err(FieldProblem::Missing, k)),
        Some(v) => match str_of(v) {
            Some(s) => Ok(s),
            None => Err(make_err(FieldProblem::InvalidType, k)),
        },
    }
}

fn opt_str_exec(es: &Vec<MetadataEntry>, p: &Vec<String>, k: &str) -> (r: Result<Option<String>, FieldError>)
    ensures
        match (r, opt_str(entries_view(es@), names_view(p@), k@)) {
            (Ok(x), Ok(sx)) => opt_view(x) == sx,
            (Err(e), Err(se)) => e@ == se,
            _ => false,
        },
{
    match get_field(es, p, k, false)? {
        None => Ok(None),
        Some(v) => match str_of(v) {
            Some(s) => Ok(Some(s)),
            None => Err(make_err(FieldProblem::InvalidType, k)),
        },
    }
}

fn req_str_list_exec(es: &Vec<MetadataEntry>, p: &Vec<String>, k: &str) -> (r: Result<Vec<String>, FieldError>)
    ensures
        match (r, req_str_list(entries_view(es@), names_view(p@), k@)) {
            (Ok(x), Ok(sx)) => strings_view(x@) == sx,
            (Err(e), Err(se)) => e@ == se,
            _ => false,
        },
{
    match get_field(es, p, k, true)? {
        None => Err(make_err(FieldProblem::Missing, k)),
        Some(v) => match str_list_of(v) {
            Some(s) => Ok(s),
            None => Err(make_err(FieldProblem::InvalidType, k)),
        },
    }
}

fn opt_stripe_exec(es: &Vec<MetadataEntry>, p: &Vec<String>, k: &str) -> (r: Result<Option<(String, u64)>, FieldError>)
    ensures
        match (r, opt_stripe(entries_view(es@), names_view(p@), k@)) {
            (Ok(Some((s, n))), Ok(Some((ss, sn)))) => s@ == ss && n == sn,
            (Ok(None), Ok(None)) => true,
            (Err(e), Err(se)) => e@ == se,
            _ => false,
        },
{
    match get_field(es, p, k, false)? {
        None => Ok(None),
        Some(v) => match stripe_of(v) {
            Some(s) => Ok(Some(s)),
            None => Err(make_err(FieldProblem::InvalidType, k)),
        },
    }
}

fn section_field_exec(es: &Vec<MetadataEntry>, p: &Vec<String>, k: &str, required: bool) -> (r: Result<bool, FieldError>)
    ensures
        match (r, section_field(entries_view(es@), names_view(p@), k@, required)) {
            (Ok(x), Ok(sx)) => x == sx,
            (Err(e), Err(se)) => e@ == se,
            _ => false,
        },
{
    match get_field(es, p, k, required)? {
        None => Ok(false),
        Some(v) => if v.is_none() {
            Ok(true)
        } else {
            Err(make_err(FieldProblem::InvalidType, k))
        },
    }
}


// ---------------------------------------------------------------------------
// Subsections and name-keyed maps

/// The names of the subsections directly inside section `p`, in document order.
pub open spec fn section_names(es: Seq<SpecEntry>, p: Seq<Seq<char>>) -> Seq<Seq<char>>
    decreases es.len(),
{
    if es.len() == 0 {
        Seq::empty()
    } else {
        let r = section_names(es.drop_last(), p);
        let e = es.last();
        if e.path == p && e.value is None {
            r.push(e.key)
        } else {
            r
        }
    }
}

fn section_names_exec(es: &Vec<MetadataEntry>, p: &Vec<String>) -> (r: Vec<String>)
    ensures
        strings_view(r@) == section_names(entries_view(es@), names_view(p@)),
{
    let ghost ev = entries_view(es@);
    let mut out: Vec<String> = Vec::new();
    let mut i: usize = 0;
    assert(ev.take(0) =~= Seq::<SpecEntry>::empty());
    assert(strings_view(out@) =~= Seq::<Seq<char>>::empty());
    while i < es.len()
        invariant
            ev == entries_view(es@),
            i <= es@.len(),
            strings_view(out@) == section_names(ev.take(i as int), names_view(p@)),
        decreases es@.len() - i,
    {
        assert(ev.take(i + 1).drop_last() =~= ev.take(i as int));
        assert(ev.take(i + 1).last() == ev[i as int]);
        assert(ev[i as int] == es@[i as int]@);
        if es[i].value.is_none() && same_path(&es[i].path, p) {
            let ghost before = out@;
            out.push(es[i].key.clone());
            assert(strings_view(out@) =~= strings_view(before).push(es@[i as int].key@));
        }
        i = i + 1;
    }
    assert(ev.take(es@.len() as int) =~= ev);
    out
}

/// Structures that are read from the entries of one section.
pub trait FromSection: Sized + View {
    spec fn spec_from_section(es: Seq<SpecEntry>, p: Seq<Seq<char>>) -> Result<Self::V, SpecFieldError>;

    fn from_section(es: &Vec<MetadataEntry>, p: &Vec<String>) -> (r: Result<Self, FieldError>)
        ensures
            match (r, Self::spec_from_section(entries_view(es@), names_view(p@))) {
                (Ok(x), Ok(sx)) => x@ == sx,
                (Err(e), Err(se)) => e@ == se,
                _ => false,
            },
    ;
}

/// The map built from the subsections `names` of section `p`, each read as a
/// `T`, inserted in order; the first subsection that cannot be read is the error.
pub open spec fn sections_map<T: FromSection>(
    es: Seq<SpecEntry>,
    p: Seq<Seq<char>>,
    names: Seq<Seq<char>>,
) -> Result<Seq<(Seq<char>, T::V)>, SpecFieldError>
    decreases names.len(),
{
    if names.len() == 0 {
        Ok(Seq::empty())
    } else {
        match sections_map::<T>(es, p, names.drop_last()) {
            Err(e) => Err(e),
            Ok(m) => match T::spec_from_section(es, p.push(names.last())) {
                Err(e) => Err(e),
                Ok(x) => Ok(map_insert(m, names.last(), x)),
            },
        }
    }
}

pub proof fn lemma_sections_map_err_stays<T: FromSection>(
    es: Seq<SpecEntry>,
    p: Seq<Seq<char>>,
    names: Seq<Seq<char>>,
    n: int,
)
    requires
        0 <= n <= names.len(),
        sections_map::<T>(es, p, names.take(n)) is Err,
    ensures
        sections_map::<T>(es, p, names) == sections_map::<T>(es, p, names.take(n)),
    decreases names.len() - n,
{
    if n < names.len() {
        assert(names.take(n + 1).drop_last() =~= names.take(n));
        lemma_sections_map_err_stays::<T>(es, p, names, n + 1);
    } else {
        assert(names.take(n) =~= names);
    }
}

/// Every entry of a map built from subsections is the reading of the
/// subsection of its name, and the names are sorted.
pub proof fn lemma_sections_map_entries<T: FromSection>(
    es: Seq<SpecEntry>,
    p: Seq<Seq<char>>,
    names: Seq<Seq<char>>,
)
    ensures
        sections_map::<T>(es, p, names) matches Ok(m) ==> {
            &&& names_sorted(m)
            &&& forall|i: int|
                0 <= i < m.len() ==> T::spec_from_section(es, p.push(#[trigger] m[i].0)) == Ok::<T::V, SpecFieldError>(m[i].1)
        },
    decreases names.len(),
{
    if names.len() > 0 {
        lemma_sections_map_entries::<T>(es, p, names.drop_last());
        if let Ok(m) = sections_map::<T>(es, p, names.drop_last()) {
            if let Ok(x) = T::spec_from_section(es, p.push(names.last())) {
                let k = names.last();
                lemma_map_insert(m, k, x, k);
                lemma_map_insert_entries(m, k, x);
            }
        }
    }
}

/// The map of all subsections of `p`.
pub open spec fn section_map<T: FromSection>(es: Seq<SpecEntry>, p: Seq<Seq<char>>) -> Result<
    Seq<(Seq<char>, T::V)>,
    SpecFieldError,
> {
    sections_map::<T>(es, p, section_names(es, p))
}

/// Reads every subsection of `p` as a `T` into a name-keyed map.
pub fn section_map_exec<T: FromSection>(es: &Vec<MetadataEntry>, p: &Vec<String>) -> (r: Result<
    NameMap<T>,
    FieldError,
>)
    ensures
        match (r, section_map::<T>(entries_view(es@), names_view(p@))) {
            (Ok(m), Ok(sm)) => m@ == sm,
            (Err(e), Err(se)) => e@ == se,
            _ => false,
        },
{
    let names = section_names_exec(es, p);
    let ghost ns = strings_view(names@);
    let ghost ev = entries_view(es@);
    let ghost pv = names_view(p@);
    let mut m: NameMap<T> = NameMap::new();
    let mut i: usize = 0;
    assert(ns.take(0) =~= Seq::<Seq<char>>::empty());
    while i < names.len()
        invariant
            ns == strings_view(names@),
            ns == section_names(ev, pv),
            ev == entries_view(es@),
            pv == names_view(p@),
            i <= names@.len(),
            sections_map::<T>(ev, pv, ns.take(i as int)) == Ok::<_, SpecFieldError>(m@),
        decreases names@.len() - i,
    {
        assert(ns.take(i + 1).drop_last() =~= ns.take(i as int));
        assert(ns.take(i + 1).last() == names@[i as int]@);
        let mut sub = crate::text::clone_names(p);
        sub.push(names[i].clone());
        assert(names_view(sub@) =~= pv.push(names@[i as int]@));
        let x = match T::from_section(es, &sub) {
            Ok(x) => x,
            Err(e) => {
                proof {
                    lemma_sections_map_err_stays::<T>(ev, pv, ns, (i + 1) as int);
                }
                return Err(e);
            },
        };
        m.insert(names[i].clone(), x);
        i = i + 1;
    }
    assert(ns.take(names@.len() as int) =~= ns);
    Ok(m)
}

// ---------------------------------------------------------------------------
// The structures

/// One segment of a logical volume: `extent_count` extents starting at
/// logical extent `start_extent`.
#[derive(Debug)]
pub struct SegmentDesc {
    pub start_extent: u64,
    pub extent_count: u64,
    /// The segment type, `striped` for a linear segment.
    pub seg_type: String,
    pub stripe_count: Option<u64>,
    /// The first stripe: a physical volume name and the physical extent it starts at.
    pub stripes: Option<(String, u64)>,
}

pub struct SpecSegment {
    pub start_extent: u64,
    pub extent_count: u64,
    pub seg_type: Seq<char>,
    pub stripe_count: Option<u64>,
    pub stripes: Option<(Seq<char>, u64)>,
}

impl View for SegmentDesc {
    type V = SpecSegment;

    open spec fn view(&self) -> SpecSegment {
        SpecSegment {
            start_extent: self.start_extent,
            extent_count: self.extent_count,
            seg_type: self.seg_type@,
            stripe_count: self.stripe_count,
            stripes: match self.stripes {
                Some((s, n)) => Some((s@, n)),
                None => None,
            },
        }
    }
}

pub open spec fn spec_segment(es: Seq<SpecEntry>, p: Seq<Seq<char>>) -> Result<SpecSegment, SpecFieldError> {
    match req_num(es, p, "start_extent"@) {
        Err(e) => Err(e),
        Ok(start_extent) => match req_num(es, p, "extent_count"@) {
            Err(e) => Err(e),
            Ok(extent_count) => match req_str(es, p, "type"@) {
                Err(e) => Err(e),
                Ok(seg_type) => match opt_num(es, p, "stripe_count"@) {
                    Err(e) => Err(e),
                    Ok(stripe_count) => match opt_stripe(es, p, "stripes"@) {
                        Err(e) => Err(e),
                        Ok(stripes) => Ok(
                            SpecSegment {
                                start_extent,
                                extent_count,
                                seg_type,
                                stripe_count,
                                stripes,
                            },
                        ),
                    },
                },
            },
        },
    }
}

impl FromSection for SegmentDesc {
    open spec fn spec_from_section(es: Seq<SpecEntry>, p: Seq<Seq<char>>) -> Result<SpecSegment, SpecFieldError> {
        spec_segment(es, p)
    }

    fn from_section(es: &Vec<MetadataEntry>, p: &Vec<String>) -> (r: Result<Self, FieldError>) {
        let start_extent = req_num_exec(es, p, "start_extent")?;
        let extent_count = req_num_exec(es, p, "extent_count")?;
        let seg_type = req_str_exec(es, p, "type")?;
        let stripe_count = opt_num_exec(es, p, "stripe_count")?;
        let stripes = opt_stripe_exec(es, p, "stripes")?;
        Ok(SegmentDesc { start_extent, extent_count, seg_type, stripe_count, stripes })
    }
}

/// A segment section decodes whenever it has `start_extent`, `extent_count`
/// and `type`: its optional `stripe_count` is `None` when the key is absent,
/// and its optional `stripes` likewise. Thin pools, caches and other
/// non-linear segments thus decode, to be refused only when read.
pub proof fn law_segment_decodes(
    es: Seq<SpecEntry>,
    p: Seq<Seq<char>>,
    start: u64,
    count: u64,
    seg_type: Seq<char>,
    stripe_count: Option<u64>,
    stripes: Option<(Seq<char>, u64)>,
)
    requires
        find_field(es, p, "start_extent"@) == FieldLookup::Found(Some(SpecValue::Scalar(SpecScalar::Num(start)))),
        find_field(es, p, "extent_count"@) == FieldLookup::Found(Some(SpecValue::Scalar(SpecScalar::Num(count)))),
        find_field(es, p, "type"@) == FieldLookup::Found(Some(SpecValue::Scalar(SpecScalar::Str(seg_type)))),
        match stripe_count {
            None => find_field(es, p, "stripe_count"@) is Absent,
            Some(n) => find_field(es, p, "stripe_count"@) == FieldLookup::Found(Some(SpecValue::Scalar(SpecScalar::Num(n)))),
        },
        match stripes {
            None => find_field(es, p, "stripes"@) is Absent,
            Some((pv, loc)) => find_field(es, p, "stripes"@) == FieldLookup::Found(
                Some(SpecValue::List(seq![SpecScalar::Str(pv), SpecScalar::Num(loc)])),
            ),
        },
    ensures
        SegmentDesc::spec_from_section(es, p) == Ok::<SpecSegment, SpecFieldError>(
            SpecSegment { start_extent: start, extent_count: count, seg_type, stripe_count, stripes },
        ),
{
    if let Some((pv, loc)) = stripes {
        let items = seq![SpecScalar::Str(pv), SpecScalar::Num(loc)];
        assert forall|i: int| 0 <= i < items.len() implies (#[trigger] items[i] is Str) == (i % 2 == 0) by {}
        assert(value_stripe(Some(SpecValue::List(items))) == Some((pv, loc)));
    }
}

/// A physical volume of the volume group.
#[derive(Debug)]
pub struct PVDesc {
    pub id: String,
    pub device: Option<String>,
    pub status: Vec<String>,
    pub dev_size: Option<u64>,
    pub pe_start: u64,
    pub pe_count: u64,
}

pub struct SpecPV {
    pub id: Seq<char>,
    pub device: Option<Seq<char>>,
    pub status: Seq<Seq<char>>,
    pub dev_size: Option<u64>,
    pub pe_start: u64,
    pub pe_count: u64,
}

impl View for PVDesc {
    type V = SpecPV;

    open spec fn view(&self) -> SpecPV {
        SpecPV {
            id: self.id@,
            device: opt_view(self.device),
            status: strings_view(self.status@),
            dev_size: self.dev_size,
            pe_start: self.pe_start,
            pe_count: self.pe_count,
        }
    }
}

pub open spec fn spec_pv(es: Seq<SpecEntry>, p: Seq<Seq<char>>) -> Result<SpecPV, SpecFieldError> {
    match req_str(es, p, "id"@) {
        Err(e) => Err(e),
        Ok(id) => match opt_str(es, p, "device"@) {
            Err(e) => Err(e),
            Ok(device) => match req_str_list(es, p, "status"@) {
                Err(e) => Err(e),
                Ok(status) => match opt_num(es, p, "dev_size"@) {
                    Err(e) => Err(e),
                    Ok(dev_size) => match req_num(es, p, "pe_start"@) {
                        Err(e) => Err(e),
                        Ok(pe_start) => match req_num(es, p, "pe_count"@) {
                            Err(e) => Err(e),
                            Ok(pe_count) => Ok(
                                SpecPV { id, device, status, dev_size, pe_start, pe_count },
                            ),
                        },
                    },
                },
            },
        },
    }
}

impl FromSection for PVDesc {
    open spec fn spec_from_section(es: Seq<SpecEntry>, p: Seq<Seq<char>>) -> Result<SpecPV, SpecFieldError> {
        spec_pv(es, p)
    }

    fn from_section(es: &Vec<MetadataEntry>, p: &Vec<String>) -> (r: Result<Self, FieldError>) {
        let id = req_str_exec(es, p, "id")?;
        let device = opt_str_exec(es, p, "device")?;
        let status = req_str_list_exec(es, p, "status")?;
        let dev_size = opt_num_exec(es, p, "dev_size")?;
        let pe_start = req_num_exec(es, p, "pe_start")?;
        let pe_count = req_num_exec(es, p, "pe_count")?;
        Ok(PVDesc { id, device, status, dev_size, pe_start, pe_count })
    }
}

/// A logical volume of the volume group, with its segments by section name.
#[derive(Debug)]
pub struct LVDesc {
    pub id: String,
    pub status: Vec<String>,
    pub segment_count: u64,
    pub segments: NameMap<SegmentDesc>,
}

pub struct SpecLV {
    pub id: Seq<char>,
    pub status: Seq<Seq<char>>,
    pub segment_count: u64,
    pub segments: Seq<(Seq<char>, SpecSegment)>,
}

impl View for LVDesc {
    type V = SpecLV;

    open spec fn view(&self) -> SpecLV {
        SpecLV {
            id: self.id@,
            status: strings_view(self.status@),
            segment_count: self.segment_count,
            segments: self.segments@,
        }
    }
}

pub open spec fn spec_lv(es: Seq<SpecEntry>, p: Seq<Seq<char>>) -> Result<SpecLV, SpecFieldError> {
    match req_str(es, p, "id"@) {
        Err(e) => Err(e),
        Ok(id) => match req_str_list(es, p, "status"@) {
            Err(e) => Err(e),
            Ok(status) => match req_num(es, p, "segment_count"@) {
                Err(e) => Err(e),
                Ok(segment_count) => match section_map::<SegmentDesc>(es, p) {
                    Err(e) => Err(e),
                    Ok(segments) => Ok(SpecLV { id, status, segment_count, segments }),
                },
            },
        },
    }
}

impl FromSection for LVDesc {
    open spec fn spec_from_section(es: Seq<SpecEntry>, p: Seq<Seq<char>>) -> Result<SpecLV, SpecFieldError> {
        spec_lv(es, p)
    }

    fn from_section(es: &Vec<MetadataEntry>, p: &Vec<String>) -> (r: Result<Self, FieldError>) {
        let id = req_str_exec(es, p, "id")?;
        let status = req_str_list_exec(es, p, "status")?;
        let segment_count = req_num_exec(es, p, "segment_count")?;
        let segments = section_map_exec::<SegmentDesc>(es, p)?;
        Ok(LVDesc { id, status, segment_count, segments })
    }
}

/// The description of one volume group.
#[derive(Debug)]
pub struct MetadataRoot {
    pub id: String,
    pub seqno: u64,
    pub status: Vec<String>,
    /// Size of an extent, in sheets.
    pub extent_size: u64,
    pub physical_volumes: NameMap<PVDesc>,
    pub logical_volumes: NameMap<LVDesc>,
}

pub struct SpecRoot {
    pub id: Seq<char>,
    pub seqno: u64,
    pub status: Seq<Seq<char>>,
    pub extent_size: u64,
    pub physical_volumes: Seq<(Seq<char>, SpecPV)>,
    pub logical_volumes: Seq<(Seq<char>, SpecLV)>,
}

impl View for MetadataRoot {
    type V = SpecRoot;

    open spec fn view(&self) -> SpecRoot {
        SpecRoot {
            id: self.id@,
            seqno: self.seqno,
            status: strings_view(self.status@),
            extent_size: self.extent_size,
            physical_volumes: self.physical_volumes@,
            logical_volumes: self.logical_volumes@,
        }
    }
}

pub open spec fn spec_root(es: Seq<SpecEntry>, p: Seq<Seq<char>>) -> Result<SpecRoot, SpecFieldError> {
    match req_str(es, p, "id"@) {
        Err(e) => Err(e),
        Ok(id) => match req_num(es, p, "seqno"@) {
            Err(e) => Err(e),
            Ok(seqno) => match req_str_list(es, p, "status"@) {
                Err(e) => Err(e),
                Ok(status) => match req_num(es, p, "extent_size"@) {
                    Err(e) => Err(e),
                    Ok(extent_size) => match section_field(es, p, "physical_volumes"@, true) {
                        Err(e) => Err(e),
                        Ok(_) => match section_map::<PVDesc>(
                            es,
                            p.push("physical_volumes"@),
                        ) {
                            Err(e) => Err(e),
                            Ok(physical_volumes) => match section_field(
                                es,
                                p,
                                "logical_volumes"@,
                                false,
                            ) {
                                Err(e) => Err(e),
                                Ok(has_lvs) => {
                                    let lvs = if has_lvs {
                                        section_map::<LVDesc>(es, p.push("logical_volumes"@))
                                    } else {
                                        Ok(Seq::empty())
                                    };
                                    match lvs {
                                        Err(e) => Err(e),
                                        Ok(logical_volumes) => Ok(
                                            SpecRoot {
                                                id,
                                                seqno,
                                                status,
                                                extent_size,
                                                physical_volumes,
                                                logical_volumes,
                                            },
                                        ),
                                    }
                                },
                            },
                        },
                    },
                },
            },
        },
    }
}

/// The physical and logical volumes of a volume group description are
/// sorted by name.
pub proof fn lemma_root_sorted(es: Seq<SpecEntry>, p: Seq<Seq<char>>)
    ensures
        spec_root(es, p) matches Ok(r) ==> names_sorted(r.physical_volumes) && names_sorted(
            r.logical_volumes,
        ),
{
    let pp = p.push("physical_volumes"@);
    let lp = p.push("logical_volumes"@);
    lemma_sections_map_entries::<PVDesc>(es, pp, section_names(es, pp));
    lemma_sections_map_entries::<LVDesc>(es, lp, section_names(es, lp));
}

impl FromSection for MetadataRoot {
    open spec fn spec_from_section(es: Seq<SpecEntry>, p: Seq<Seq<char>>) -> Result<SpecRoot, SpecFieldError> {
        spec_root(es, p)
    }

    fn from_section(es: &Vec<MetadataEntry>, p: &Vec<String>) -> (r: Result<Self, FieldError>) {
        let id = req_str_exec(es, p, "id")?;
        let seqno = req_num_exec(es, p, "seqno")?;
        let status = req_str_list_exec(es, p, "status")?;
        let extent_size = req_num_exec(es, p, "extent_size")?;
        section_field_exec(es, p, "physical_volumes", true)?;
        let mut pvp = crate::text::clone_names(p);
        pvp.push("physical_volumes".to_owned());
        assert(names_view(pvp@) =~= names_view(p@).push("physical_volumes"@));
        let physical_volumes = section_map_exec::<PVDesc>(es, &pvp)?;
        let has_lvs = section_field_exec(es, p, "logical_volumes", false)?;
        let logical_volumes = if has_lvs {
            let mut lvp = crate::text::clone_names(p);
            lvp.push("logical_volumes".to_owned());
            assert(names_view(lvp@) =~= names_view(p@).push("logical_volumes"@));
            section_map_exec::<LVDesc>(es, &lvp)?
        } else {
            NameMap::new()
        };
        Ok(MetadataRoot { id, seqno, status, extent_size, physical_volumes, logical_volumes })
    }
}

} // verus!
