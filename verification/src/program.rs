//! A loaded program as the runtime sees it: its schema declarations and
//! its enum declarations, looked up by name (the first declaration of a
//! name wins).
use vstd::prelude::*;
use crate::ast::{items_view, lemma_schema_lists, schema_view, SchemaDecl, SchemaDeclV};

verus! {

/// A payload field of an enum variant: `name ∈ ty`.
#[derive(PartialEq, Debug)]
pub struct FieldDecl {
    pub name: String,
    pub ty: String,
}

#[derive(PartialEq, Debug)]
pub struct VariantDecl {
    pub name: String,
    pub fields: Vec<FieldDecl>,
}

#[derive(PartialEq, Debug)]
pub struct EnumDecl {
    pub name: String,
    pub variants: Vec<VariantDecl>,
}

#[derive(PartialEq, Debug)]
pub struct Program {
    pub schemas: Vec<SchemaDecl>,
    pub enums: Vec<EnumDecl>,
}

pub struct VariantDeclV {
    pub name: Seq<char>,
    pub field_types: Seq<Seq<char>>,
}

pub struct EnumDeclV {
    pub name: Seq<char>,
    pub variants: Seq<VariantDeclV>,
}

pub open spec fn variant_view(v: VariantDecl) -> VariantDeclV {
    VariantDeclV { name: v.name@, field_types: Seq::new(v.fields.len() as nat, |i: int| v.fields@[i].ty@) }
}

pub open spec fn enum_view(e: EnumDecl) -> EnumDeclV {
    EnumDeclV { name: e.name@, variants: Seq::new(e.variants.len() as nat, |i: int| variant_view(e.variants@[i])) }
}

pub open spec fn schemas_view(v: Seq<SchemaDecl>) -> Seq<SchemaDeclV> {
    Seq::new(v.len(), |i: int| schema_view(v[i]))
}

pub open spec fn enums_view(v: Seq<EnumDecl>) -> Seq<EnumDeclV> {
    Seq::new(v.len(), |i: int| enum_view(v[i]))
}

/// The first schema named `name`.
pub open spec fn find_schema(schemas: Seq<SchemaDeclV>, name: Seq<char>) -> Option<SchemaDeclV>
    decreases schemas.len(),
{
    if schemas.len() == 0 {
        None
    } else if schemas[0].name == name {
        Some(schemas[0])
    } else {
        find_schema(schemas.drop_first(), name)
    }
}

/// The first enum named `name`.
pub open spec fn find_enum(enums: Seq<EnumDeclV>, name: Seq<char>) -> Option<EnumDeclV>
    decreases enums.len(),
{
    if enums.len() == 0 {
        None
    } else if enums[0].name == name {
        Some(enums[0])
    } else {
        find_enum(enums.drop_first(), name)
    }
}

/// The first schema named `name`.
pub fn lookup_schema<'a>(schemas: &'a Vec<SchemaDecl>, name: &String) -> (r: Option<&'a SchemaDecl>)
    ensures
        match r {
            Some(s) => find_schema(schemas_view(schemas@), name@) == Some(s@),
            None => find_schema(schemas_view(schemas@), name@) is None,
        },
{
    let ghost sv = schemas_view(schemas@);
    let mut i: usize = 0;
    assert(sv.subrange(0, sv.len() as int) =~= sv);
    while i < schemas.len()
        invariant
            0 <= i <= schemas.len(),
            sv == schemas_view(schemas@),
            find_schema(sv, name@) == find_schema(sv.subrange(i as int, sv.len() as int), name@),
        decreases schemas.len() - i,
    {
        let ghost rest = sv.subrange(i as int, sv.len() as int);
        assert(rest[0] == schema_view(schemas@[i as int]));
        if schemas[i].name == *name {
            return Some(&schemas[i]);
        }
        assert(rest.drop_first() =~= sv.subrange(i + 1, sv.len() as int));
        i += 1;
    }
    None
}

/// The name of the first enum with a variant named `variant`.
pub open spec fn enum_of_variant(enums: Seq<EnumDeclV>, variant: Seq<char>) -> Option<Seq<char>>
    decreases enums.len(),
{
    if enums.len() == 0 {
        None
    } else if exists|k: int| 0 <= k < enums[0].variants.len() && (#[trigger] enums[0].variants[k]).name == variant {
        Some(enums[0].name)
    } else {
        enum_of_variant(enums.drop_first(), variant)
    }
}

/// The name of the first enum with a variant named `variant`; see
/// `enum_of_variant`.
pub fn variant_enum(enums: &Vec<EnumDecl>, variant: &String) -> (r: Option<String>)
    ensures
        match r {
            Some(n) => enum_of_variant(enums_view(enums@), variant@) == Some(n@),
            None => enum_of_variant(enums_view(enums@), variant@) is None,
        },
{
    let ghost ev = enums_view(enums@);
    let mut i: usize = 0;
    assert(ev.subrange(0, ev.len() as int) =~= ev);
    while i < enums.len()
        invariant
            0 <= i <= enums.len(),
            ev == enums_view(enums@),
            enum_of_variant(ev, variant@) == enum_of_variant(ev.subrange(i as int, ev.len() as int), variant@),
        decreases enums.len() - i,
    {
        let ghost rest = ev.subrange(i as int, ev.len() as int);
        assert(rest[0] == enum_view(enums@[i as int]));
        let e = &enums[i];
        let mut j: usize = 0;
        while j < e.variants.len()
            invariant
                0 <= j <= e.variants.len(),
                i < enums.len(),
                ev == enums_view(enums@),
                rest == ev.subrange(i as int, ev.len() as int),
                enum_of_variant(ev, variant@) == enum_of_variant(rest, variant@),
                rest[0] == enum_view(*e),
                forall|k: int| 0 <= k < j ==> (#[trigger] rest[0].variants[k]).name != variant@,
            decreases e.variants.len() - j,
        {
            assert(rest[0].variants[j as int] == variant_view(e.variants@[j as int]));
            if e.variants[j].name == *variant {
                assert((rest[0].variants[j as int]).name == variant@);
                return Some(e.name.clone());
            }
            j += 1;
        }
        assert(rest.drop_first() =~= ev.subrange(i + 1, ev.len() as int));
        i += 1;
    }
    None
}

impl Program {
    pub open spec fn schemas_v(&self) -> Seq<SchemaDeclV> {
        schemas_view(self.schemas@)
    }

    pub open spec fn enums_v(&self) -> Seq<EnumDeclV> {
        enums_view(self.enums@)
    }

    /// The first schema named `name`.
    pub fn get_schema(&self, name: &String) -> (r: Option<&SchemaDecl>)
        ensures
            match r {
                Some(s) => find_schema(self.schemas_v(), name@) == Some(s@),
                None => find_schema(self.schemas_v(), name@) is None,
            },
    {
        let ghost sv = self.schemas_v();
        let mut i: usize = 0;
        assert(sv.subrange(0, sv.len() as int) =~= sv);
        while i < self.schemas.len()
            invariant
                0 <= i <= self.schemas.len(),
                sv == self.schemas_v(),
                find_schema(sv, name@) == find_schema(sv.subrange(i as int, sv.len() as int), name@),
            decreases self.schemas.len() - i,
        {
            let ghost rest = sv.subrange(i as int, sv.len() as int);
            assert(rest[0] == schema_view(self.schemas@[i as int]));
            if self.schemas[i].name == *name {
                return Some(&self.schemas[i]);
            }
            assert(rest.drop_first() =~= sv.subrange(i + 1, sv.len() as int));
            i += 1;
        }
        None
    }

    /// The first enum named `name`.
    pub fn get_enum(&self, name: &String) -> (r: Option<&EnumDecl>)
        ensures
            match r {
                Some(e) => find_enum(self.enums_v(), name@) == Some(enum_view(*e)),
                None => find_enum(self.enums_v(), name@) is None,
            },
    {
        let ghost ev = self.enums_v();
        let mut i: usize = 0;
        assert(ev.subrange(0, ev.len() as int) =~= ev);
        while i < self.enums.len()
            invariant
                0 <= i <= self.enums.len(),
                ev == self.enums_v(),
                find_enum(ev, name@) == find_enum(ev.subrange(i as int, ev.len() as int), name@),
            decreases self.enums.len() - i,
        {
            let ghost rest = ev.subrange(i as int, ev.len() as int);
            assert(rest[0] == enum_view(self.enums@[i as int]));
            if self.enums[i].name == *name {
                return Some(&self.enums[i]);
            }
            assert(rest.drop_first() =~= ev.subrange(i + 1, ev.len() as int));
            i += 1;
        }
        None
    }
}

} // verus!
