//! One index: its schema and field mappings, its analyzers, and its store.
//! Documents are prepared here — coerced by field type and analyzed — and
//! queries are compiled here against the schema and the term dictionary.

use vstd::prelude::*;
use crate::value::{Value, string_is};
use crate::term::{Term, Token};
use crate::analyzer::AnalyzerSpec;
use crate::doc::{AnalyzedDocument, FieldTokens, StoredField, DocRef, SegmentBuilder};
use crate::store::IndexStore;
use crate::search::{CompiledQuery, CompiledScorer};
use crate::query::{Query, TermMatcher};
use crate::term_dictionary::TermSelector;
use crate::unicode::parse_rfc3339_nanos;
use crate::dec::u64_to_dec;
use vstd::string::{StringExecFns, StrSliceExecFns};
use vstd::utf8::encode_utf8;

verus! {

broadcast use vstd::std_specs::vec::axiom_vec_index_decreases;

/// The type of a field's values.
#[derive(Debug, Clone, Copy, PartialEq, Eq, Structural)]
pub enum FieldType {
    Text,
    Keyword,
    Integer,
    Boolean,
    DateTime,
}

/// The field is analyzed and searchable.
pub const FIELD_INDEXED: u32 = 1;

/// The field's raw value is kept and returned with hits.
pub const FIELD_STORED: u32 = 2;

/// Why a document or a schema change was refused.
#[derive(Debug, Clone, Copy, PartialEq, Eq, Structural)]
pub enum SchemaError {
    DuplicateField,
    UnknownField,
    FieldCoercion,
}

/// One field of the schema: its name, its dense reference, its type and
/// flags, and the analyzer applied at index time.
pub struct FieldMapping {
    pub name: String,
    pub field_ref: u32,
    pub field_type: FieldType,
    pub flags: u32,
    pub index_analyzer: AnalyzerSpec,
}

/// The first mapping with a name, if any.
pub open spec fn mapping_lookup(ms: Seq<FieldMapping>, name: Seq<char>) -> Option<u32>
    decreases ms.len(),
{
    if ms.len() == 0 {
        None
    } else if ms[0].name@ == name {
        Some(ms[0].field_ref)
    } else {
        mapping_lookup(ms.skip(1), name)
    }
}

/// Every mapped, indexed field the source holds has a token entry.
pub open spec fn indexed_fields_present(
    ms: Seq<FieldMapping>,
    df: Seq<(String, Value)>,
    fs: Seq<FieldTokens>,
    upto: int,
) -> bool {
    forall|a: int|
        0 <= a < upto && a < ms.len() && (#[trigger] ms[a]).flags & FIELD_INDEXED != 0
            && crate::value::obj_lookup(df, ms[a].name@) is Some ==> exists|b: int|
            0 <= b < fs.len() && (#[trigger] fs[b]).field == ms[a].field_ref
}

/// Every mapped, stored field the source holds as a string keeps its bytes.
pub open spec fn stored_fields_present(
    ms: Seq<FieldMapping>,
    df: Seq<(String, Value)>,
    ss: Seq<StoredField>,
    upto: int,
) -> bool {
    forall|a: int|
        0 <= a < upto && a < ms.len() && (#[trigger] ms[a]).flags & FIELD_STORED != 0 && (
        crate::value::obj_lookup(df, ms[a].name@) matches Some(sv) && sv is Str) ==> exists|b: int|
            0 <= b < ss.len() && (#[trigger] ss[b]).field == ms[a].field_ref && ss[b].value@
                == encode_utf8(crate::value::obj_lookup(df, ms[a].name@).unwrap()->Str_0@)
}

/// A text or keyword field takes a string or an array of strings.
pub open spec fn textual_coercible(v: Value) -> bool {
    match v {
        Value::Str(s) => true,
        Value::Array(items) => forall|i: int| 0 <= i < items@.len() ==> (#[trigger] items@[i])
            is Str,
        _ => false,
    }
}

/// The value coerces to the field type: strings and string arrays for text
/// and keyword fields, integers for integer fields, booleans or their
/// literals for boolean fields, datetime text or epoch numbers for datetime
/// fields.
pub open spec fn value_coercible(ft: FieldType, v: Value) -> bool {
    match ft {
        FieldType::Text => textual_coercible(v),
        FieldType::Keyword => textual_coercible(v),
        FieldType::Integer => v is I64,
        FieldType::Boolean => v is Boolean || (v matches Value::Str(s) && (s@ == "true"@ || s@
            == "false"@)),
        FieldType::DateTime => (v matches Value::Str(s)
            && crate::unicode::rfc3339_nanos_of(s@) is Some) || v is I64,
    }
}

/// Coercion only constrains indexed fields: a stored-only field keeps its
/// raw value whatever its shape.
pub open spec fn field_coercible(m: FieldMapping, v: Value) -> bool {
    m.flags & FIELD_INDEXED == 0 || value_coercible(m.field_type, v)
}

/// Every mapped field the source holds coerces to its type.
pub open spec fn source_coercible(ms: Seq<FieldMapping>, df: Seq<(String, Value)>) -> bool {
    forall|a: int|
        0 <= a < ms.len() ==> (crate::value::obj_lookup(df, (#[trigger] ms[a]).name@) matches Some(
            v,
        ) ==> field_coercible(ms[a], v))
}

/// Every field name the query mentions is mapped by the schema.
pub open spec fn fields_mapped(q: Query, ms: Seq<FieldMapping>) -> bool
    decreases q,
{
    match q {
        Query::MatchAll => true,
        Query::MatchNone => true,
        Query::MatchTerm { field, term, matcher } => mapping_lookup(ms, field@) is Some,
        Query::Conjunction { queries } => list_fields_mapped(queries@, ms),
        Query::Disjunction { queries } => list_fields_mapped(queries@, ms),
        Query::NDisjunction { queries, minimum_should_match } => list_fields_mapped(queries@, ms),
        Query::DisjunctionMax { queries } => list_fields_mapped(queries@, ms),
        Query::Filter { query, filter } => fields_mapped(*query, ms) && fields_mapped(*filter, ms),
        Query::Exclude { query, exclude } => fields_mapped(*query, ms) && fields_mapped(
            *exclude,
            ms,
        ),
        Query::Score { query, mul_milli, add_milli } => fields_mapped(*query, ms),
    }
}

/// Every field name any query of the list mentions is mapped.
pub open spec fn list_fields_mapped(qs: Seq<Query>, ms: Seq<FieldMapping>) -> bool
    decreases qs,
{
    if qs.len() == 0 {
        true
    } else {
        fields_mapped(qs[0], ms) && list_fields_mapped(qs.skip(1), ms)
    }
}

/// An index: a name, a schema of mapped fields, and the store.
pub struct Index {
    pub name: String,
    pub mappings: Vec<FieldMapping>,
    pub store: IndexStore,
}

impl Index {
    /// A fresh, empty index.
    pub fn new(name: String) -> (r: Index)
        ensures
            r.store.wf(),
            r.mappings@.len() == 0,
    {
        Index { name, mappings: Vec::new(), store: IndexStore::create() }
    }

    /// Looks a field name up in the schema.
    pub fn field_by_name(&self, name: &String) -> (r: Option<u32>)
        ensures
            r == mapping_lookup(self.mappings@, name@),
    {
        let ghost ms = self.mappings@;
        let mut i: usize = 0;
        proof {
            assert(ms.skip(0) =~= ms);
        }
        while i < self.mappings.len()
            invariant
                0 <= i <= ms.len(),
                ms == self.mappings@,
                mapping_lookup(ms, name@) == mapping_lookup(ms.skip(i as int), name@),
            decreases ms.len() - i,
        {
            proof {
                assert(ms.skip(i as int)[0] == ms[i as int]);
                assert(ms.skip(i as int).skip(1) =~= ms.skip(i as int + 1));
            }
            if string_is(&self.mappings[i].name, name.as_str()) {
                return Some(self.mappings[i].field_ref);
            }
            i = i + 1;
        }
        proof {
            assert(ms.skip(i as int) =~= Seq::<FieldMapping>::empty());
        }
        None
    }

    /// Adds a field to the schema, assigning the next dense reference; a
    /// name already mapped is refused.
    pub fn add_field(
        &mut self,
        name: String,
        field_type: FieldType,
        flags: u32,
        index_analyzer: AnalyzerSpec,
    ) -> (r: Result<u32, SchemaError>)
        requires
            old(self).mappings@.len() < 0xffff_ffff,
        ensures
            final(self).store == old(self).store,
            r is Ok <==> mapping_lookup(old(self).mappings@, name@) is None,
            r is Err ==> final(self).mappings@ == old(self).mappings@ && r == Err::<
                u32,
                SchemaError,
            >(SchemaError::DuplicateField),
            r matches Ok(fr) ==> fr == old(self).mappings@.len() && final(self).mappings@ == old(
                self,
            ).mappings@.push(
                FieldMapping { name, field_ref: fr, field_type, flags, index_analyzer },
            ) && mapping_lookup(final(self).mappings@, name@) == Some(fr),
    {
        proof {
            lemma_mapping_lookup_exists(self.mappings@, name@);
        }
        match self.field_by_name(&name) {
            Some(_) => Err(SchemaError::DuplicateField),
            None => {
                let field_ref = self.mappings.len() as u32;
                let ghost pre = self.mappings@;
                let m = FieldMapping { name, field_ref, field_type, flags, index_analyzer };
                proof {
                    lemma_mapping_lookup_push(pre, m);
                }
                self.mappings.push(m);
                Ok(field_ref)
            },
        }
    }

    /// Analyzes the tokens of one coerced text at a position offset.
    fn analyze_text(
        &self,
        analyzer: &AnalyzerSpec,
        text: &String,
        offset: u32,
        out: &mut Vec<Token>,
    ) {
        let mut toks = analyzer.analyze(text);
        while toks.len() > 0
            decreases toks@.len(),
        {
            let t = toks.remove(0);
            let position = crate::search::sat_add(t.position as u64, offset as u64);
            let position: u32 = if position > 0xffff_ffff {
                0xffff_ffff
            } else {
                position as u32
            };
            out.push(Token { term: t.term, position });
        }
    }

    /// Turns a source document into an analyzed document: each mapped field
    /// is coerced to its type and, when indexed, analyzed; array elements
    /// are concatenated with a position gap of one hundred; when stored,
    /// the value's bytes are kept. Unmapped fields of the source are passed
    /// over. A value the field's type cannot take refuses the document.
    pub fn prepare(&self, key: String, data: &Value) -> (r: Result<AnalyzedDocument, SchemaError>)
        ensures
            r matches Ok(d) ==> d.key == key,
            r is Err ==> r == Err::<AnalyzedDocument, SchemaError>(SchemaError::FieldCoercion),
            r is Ok <==> ((*data) matches Value::Object(df) ==> source_coercible(
                self.mappings@,
                df@,
            )),
            r matches Ok(d) ==> (data matches Value::Object(df) ==> indexed_fields_present(
                self.mappings@,
                df@,
                d.fields@,
                self.mappings@.len() as int,
            )),
            r matches Ok(d) ==> (data matches Value::Object(df) ==> stored_fields_present(
                self.mappings@,
                df@,
                d.stored@,
                self.mappings@.len() as int,
            )),
    {
        let mut fields: Vec<FieldTokens> = Vec::new();
        let mut stored: Vec<StoredField> = Vec::new();
        let mut mi: usize = 0;
        while mi < self.mappings.len()
            invariant
                0 <= mi <= self.mappings@.len(),
                data matches Value::Object(df) ==> (forall|a: int|
                    0 <= a < mi ==> (crate::value::obj_lookup(
                        df@,
                        (#[trigger] self.mappings@[a]).name@,
                    ) matches Some(v) ==> field_coercible(self.mappings@[a], v))),
                data matches Value::Object(df) ==> indexed_fields_present(
                    self.mappings@,
                    df@,
                    fields@,
                    mi as int,
                ),
                data matches Value::Object(df) ==> stored_fields_present(
                    self.mappings@,
                    df@,
                    stored@,
                    mi as int,
                ),
            decreases self.mappings@.len() - mi,
        {
            let ghost fpre = fields@;
            let ghost spre = stored@;
            let m = &self.mappings[mi];
            match data.get_key(m.name.as_str()) {
                Some(v) => {
                    let mut tokens: Vec<Token> = Vec::new();
                    if m.flags & FIELD_INDEXED != 0 {
                        let textual = match m.field_type {
                            FieldType::Text => true,
                            FieldType::Keyword => true,
                            _ => false,
                        };
                        if textual {
                            match v {
                                Value::Str(s) => {
                                    self.analyze_text(&m.index_analyzer, s, 0, &mut tokens);
                                },
                                Value::Array(items) => {
                                    let mut k: usize = 0;
                                    let mut offset: u32 = 0;
                                    while k < items.len()
                                        invariant
                                            0 <= k <= items@.len(),
                                            (*v) matches Value::Array(its) && its@ == items@,
                                            forall|e: int|
                                                0 <= e < k ==> (#[trigger] items@[e]) is Str,
                                            0 <= mi < self.mappings@.len(),
                                            m == &self.mappings@[mi as int],
                                            m.flags & FIELD_INDEXED != 0,
                                            m.field_type is Text || m.field_type is Keyword,
                                            (*data) is Object,
                                            crate::value::obj_lookup(
                                                data->Object_0@,
                                                self.mappings@[mi as int].name@,
                                            ) == Some(*v),
                                        decreases items@.len() - k,
                                    {
                                        match &items[k] {
                                            Value::Str(s) => {
                                                self.analyze_text(
                                                    &m.index_analyzer,
                                                    s,
                                                    offset,
                                                    &mut tokens,
                                                );
                                            },
                                            _ => {
                                                proof {
                                                    assert(!((#[trigger] items@[k as int])
                                                        is Str));
                                                    assert(!textual_coercible(*v));
                                                    lemma_not_coercible_here(
                                                        self.mappings@,
                                                        data->Object_0@,
                                                        mi as int,
                                                        *v,
                                                    );
                                                }
                                                return Err(SchemaError::FieldCoercion);
                                            },
                                        }
                                        offset = if offset >= 0xffff_ff00 {
                                            0xffff_ffff
                                        } else {
                                            offset + 100
                                        };
                                        k = k + 1;
                                    }
                                },
                                _ => {
                                    proof {
                                        assert(!textual_coercible(*v));
                                        lemma_not_coercible_here(
                                            self.mappings@,
                                            data->Object_0@,
                                            mi as int,
                                            *v,
                                        );
                                    }
                                    return Err(SchemaError::FieldCoercion);
                                },
                            }
                        } else {
                            match (&m.field_type, v) {
                                (FieldType::Integer, Value::I64(n)) => {
                                    tokens.push(Token { term: Term::I64(*n), position: 1 });
                                },
                                (FieldType::Boolean, Value::Boolean(b)) => {
                                    tokens.push(Token { term: Term::Bool(*b), position: 1 });
                                },
                                (FieldType::Boolean, Value::Str(s)) => {
                                    if string_is(s, "true") {
                                        tokens.push(Token { term: Term::Bool(true), position: 1 });
                                    } else if string_is(s, "false") {
                                        tokens.push(
                                            Token { term: Term::Bool(false), position: 1 },
                                        );
                                    } else {
                                        proof {
                                            assert(!value_coercible(m.field_type, *v));
                                            lemma_not_coercible_here(
                                                self.mappings@,
                                                data->Object_0@,
                                                mi as int,
                                                *v,
                                            );
                                        }
                                        return Err(SchemaError::FieldCoercion);
                                    }
                                },
                                (FieldType::DateTime, Value::Str(s)) => {
                                    match parse_rfc3339_nanos(s) {
                                        Some(n) => {
                                            tokens.push(
                                                Token { term: Term::DateTime(n), position: 1 },
                                            );
                                        },
                                        None => {
                                            proof {
                                                assert(!value_coercible(m.field_type, *v));
                                                lemma_not_coercible_here(
                                                    self.mappings@,
                                                    data->Object_0@,
                                                    mi as int,
                                                    *v,
                                                );
                                            }
                                            return Err(SchemaError::FieldCoercion);
                                        },
                                    }
                                },
                                (FieldType::DateTime, Value::I64(n)) => {
                                    tokens.push(Token { term: Term::DateTime(*n), position: 1 });
                                },
                                _ => {
                                    proof {
                                        assert(!value_coercible(m.field_type, *v));
                                        lemma_not_coercible_here(
                                            self.mappings@,
                                            data->Object_0@,
                                            mi as int,
                                            *v,
                                        );
                                    }
                                    return Err(SchemaError::FieldCoercion);
                                },
                            }
                        }
                        fields.push(FieldTokens { field: m.field_ref, tokens });
                    }
                    if m.flags & FIELD_STORED != 0 {
                        let bytes: Vec<u8> = match v {
                            Value::Str(s) => s.as_str().as_bytes_vec(),
                            Value::Boolean(b) => {
                                if *b {
                                    let lit: &str = "true";
                                    lit.as_bytes_vec()
                                } else {
                                    let lit: &str = "false";
                                    lit.as_bytes_vec()
                                }
                            },
                            Value::I64(n) => {
                                if *n >= 0 {
                                    u64_to_dec(*n as u64)
                                } else {
                                    let mut out: Vec<u8> = Vec::new();
                                    out.push(45);
                                    let mag: u64 = if *n == i64::MIN {
                                        0x8000_0000_0000_0000
                                    } else {
                                        (-(*n)) as u64
                                    };
                                    let magd = u64_to_dec(mag);
                                    out.extend_from_slice(magd.as_slice());
                                    out
                                }
                            },
                            _ => Vec::new(),
                        };
                        stored.push(StoredField { field: m.field_ref, value: bytes });
                    }
                    proof {
                        assert(field_coercible(self.mappings@[mi as int], *v));
                    }
                },
                None => {
                },
            }
            proof {
                if (*data) is Object {
                    let dfv = data->Object_0;
                    assert forall|a: int|
                        0 <= a < mi + 1 implies (crate::value::obj_lookup(
                        dfv@,
                        (#[trigger] self.mappings@[a]).name@,
                    ) matches Some(vv) ==> field_coercible(self.mappings@[a], vv)) by {
                    }
                }
                if (*data) is Object {
                    let df = data->Object_0;
                    assert forall|a: int|
                        0 <= a < mi + 1 && a < self.mappings@.len()
                            && (#[trigger] self.mappings@[a]).flags & FIELD_INDEXED != 0
                            && crate::value::obj_lookup(df@, self.mappings@[a].name@)
                            is Some implies exists|b: int|
                        0 <= b < fields@.len() && (#[trigger] fields@[b]).field
                            == self.mappings@[a].field_ref by {
                        if a < mi {
                            assert(indexed_fields_present(self.mappings@, df@, fpre, mi as int));
                            let b = choose|b: int|
                                0 <= b < fpre.len() && (#[trigger] fpre[b]).field
                                    == self.mappings@[a].field_ref;
                            assert(fields@[b] == fpre[b]);
                        } else {
                            assert(fields@[fields@.len() - 1].field
                                == self.mappings@[mi as int].field_ref);
                        }
                    }
                    assert(indexed_fields_present(self.mappings@, df@, fields@, mi as int + 1));
                    assert forall|a: int|
                        0 <= a < mi + 1 && a < self.mappings@.len()
                            && (#[trigger] self.mappings@[a]).flags & FIELD_STORED != 0 && (
                        crate::value::obj_lookup(df@, self.mappings@[a].name@) matches Some(sv)
                            && sv is Str) implies exists|b: int|
                        0 <= b < stored@.len() && (#[trigger] stored@[b]).field
                            == self.mappings@[a].field_ref && stored@[b].value@ == encode_utf8(
                            crate::value::obj_lookup(
                                df@,
                                self.mappings@[a].name@,
                            ).unwrap()->Str_0@,
                        ) by {
                        if a < mi {
                            assert(stored_fields_present(self.mappings@, df@, spre, mi as int));
                            let b = choose|b: int|
                                0 <= b < spre.len() && (#[trigger] spre[b]).field
                                    == self.mappings@[a].field_ref && spre[b].value@
                                    == encode_utf8(
                                    crate::value::obj_lookup(
                                        df@,
                                        self.mappings@[a].name@,
                                    ).unwrap()->Str_0@,
                                );
                            assert(stored@[b] == spre[b]);
                        } else {
                            assert(stored@[stored@.len() - 1].field
                                == self.mappings@[mi as int].field_ref);
                        }
                    }
                    assert(stored_fields_present(self.mappings@, df@, stored@, mi as int + 1));
                }
            }
            mi = mi + 1;
        }
        proof {
            if (*data) is Object {
                let dfv = data->Object_0;
                assert(source_coercible(self.mappings@, dfv@));
            }
        }
        Ok(AnalyzedDocument { key, fields, stored })
    }

    /// Prepares and indexes one document as its own segment, binding its
    /// key: a key written before loses its old document.
    pub fn insert_or_update_document(&mut self, key: String, data: &Value) -> (r: Result<
        DocRef,
        SchemaError,
    >)
        requires
            old(self).store.wf(),
        ensures
            final(self).store.wf(),
            final(self).mappings@ == old(self).mappings@,
            r matches Ok(dr) ==> final(self).store.doc_refs() == old(self).store.doc_refs().insert(
                encode_utf8(key@),
                dr,
            ) && dr.segment == old(self).store.next_seg() && dr.ord == 0
                && final(self).store.next_seg() == dr.segment + 1
                && final(self).store.kv_map().contains_key(crate::keys::live_key(dr.segment)),
            r is Err ==> final(self).store.doc_refs() == old(self).store.doc_refs()
                && final(self).store.next_seg() == old(self).store.next_seg(),
            !((*data) matches Value::Object(df) ==> source_coercible(old(self).mappings@, df@))
                ==> r == Err::<DocRef, SchemaError>(SchemaError::FieldCoercion),
            (((*data) matches Value::Object(df) ==> source_coercible(old(self).mappings@, df@))
                && old(self).store.next_seg() < 0xffff_ffff && r is Err)
                ==> final(self).store.term_dictionary.next_ref() == 0xffff_ffff,
    {
        let kb = key.as_str().as_bytes_vec();
        let doc = match self.prepare(key, data) {
            Ok(d) => d,
            Err(e) => {
                return Err(e);
            },
        };
        let mut builder = SegmentBuilder::new();
        let ord = match builder.add_document(doc) {
            Ok(o) => o,
            Err(_) => {
                proof {
                    assert(false);
                }
                return Err(SchemaError::FieldCoercion);
            },
        };
        let seg = match self.store.write_segment(&builder) {
            Ok(s) => s,
            Err(_) => {
                return Err(SchemaError::FieldCoercion);
            },
        };
        let dr = DocRef { segment: seg, ord };
        self.store.insert_or_replace_key(&kb, dr);
        Ok(dr)
    }

    /// Compiles a parsed query against the schema and the dictionary: field
    /// names become references; a prefix becomes every reference the
    /// dictionary holds under it; an unmapped field is refused.
    pub fn compile(&self, q: &Query) -> (r: Result<CompiledQuery, SchemaError>)
        requires
            self.store.wf(),
        ensures
            r is Err ==> r == Err::<CompiledQuery, SchemaError>(SchemaError::UnknownField),
            r is Ok <==> fields_mapped(*q, self.mappings@),
            (*q) matches Query::MatchTerm { field, term, matcher } ==> ((matcher
                is Exact && r is Ok) ==> (r.unwrap() matches CompiledQuery::Term {
                field: fr,
                trefs,
                scorer,
            } && Some(fr) == mapping_lookup(self.mappings@, field@) && scorer == (
            CompiledScorer::TfIdf { k1_milli: 1200, b_milli: 750 }) && (
            self.store.dict().contains_key(crate::term::term_bytes(term)) ==> trefs@ == seq![
                self.store.dict()[crate::term::term_bytes(term)],
            ]) && (!self.store.dict().contains_key(crate::term::term_bytes(term)) ==> trefs@
                == Seq::<u32>::empty()))),
        decreases *q,
    {
        proof {
            self.store.lemma_components_wf();
        }
        match q {
            Query::MatchAll => Ok(CompiledQuery::All),
            Query::MatchNone => Ok(CompiledQuery::Nothing),
            Query::MatchTerm { field, term, matcher } => {
                let fr = match self.field_by_name(field) {
                    Some(fr) => fr,
                    None => {
                        return Err(SchemaError::UnknownField);
                    },
                };
                let trefs: Vec<u32> = match matcher {
                    TermMatcher::Exact => {
                        let mut trefs: Vec<u32> = Vec::new();
                        match self.store.term_dictionary.get(term) {
                            Some(tr) => {
                                trefs.push(tr.ord());
                                proof {
                                    assert(trefs@ =~= seq![
                                        self.store.dict()[crate::term::term_bytes(*term)],
                                    ]);
                                }
                            },
                            None => {
                                proof {
                                    assert(trefs@ =~= Seq::<u32>::empty());
                                }
                            },
                        }
                        trefs
                    },
                    TermMatcher::Prefix => {
                        let enc = term.encode();
                        let sel = TermSelector::Prefix(enc);
                        let refs = self.store.term_dictionary.select(&sel);
                        let mut trefs: Vec<u32> = Vec::new();
                        let mut i: usize = 0;
                        while i < refs.len()
                            decreases refs@.len() - i,
                        {
                            trefs.push(refs[i].ord());
                            i = i + 1;
                        }
                        trefs
                    },
                };
                Ok(
                    CompiledQuery::Term {
                        field: fr,
                        trefs,
                        scorer: CompiledScorer::TfIdf { k1_milli: 1200, b_milli: 750 },
                    },
                )
            },
            Query::Conjunction { queries } => {
                proof {
                    assert(q->Conjunction_queries == *queries);
                    assert(decreases_to!(*q => q->Conjunction_queries));
                }
                match self.compile_list(queries) {
                    Ok(children) => Ok(CompiledQuery::Conj { children }),
                    Err(e) => Err(e),
                }
            },
            Query::Disjunction { queries } => {
                proof {
                    assert(q->Disjunction_queries == *queries);
                    assert(decreases_to!(*q => q->Disjunction_queries));
                }
                match self.compile_list(queries) {
                    Ok(children) => Ok(CompiledQuery::Disj { children }),
                    Err(e) => Err(e),
                }
            },
            Query::DisjunctionMax { queries } => {
                proof {
                    assert(q->DisjunctionMax_queries == *queries);
                    assert(decreases_to!(*q => q->DisjunctionMax_queries));
                }
                match self.compile_list(queries) {
                    Ok(children) => Ok(CompiledQuery::DisjMax { children }),
                    Err(e) => Err(e),
                }
            },
            Query::NDisjunction { queries, minimum_should_match } => {
                let min: u32 = if *minimum_should_match <= 0 {
                    0
                } else {
                    *minimum_should_match as u32
                };
                proof {
                    assert(q->NDisjunction_queries == *queries);
                    assert(decreases_to!(*q => q->NDisjunction_queries));
                }
                match self.compile_list(queries) {
                    Ok(children) => Ok(CompiledQuery::NDisj { children, min }),
                    Err(e) => Err(e),
                }
            },
            Query::Filter { query, filter } => {
                let cq = match self.compile(query) {
                    Ok(c) => c,
                    Err(e) => {
                        return Err(e);
                    },
                };
                let cf = match self.compile(filter) {
                    Ok(c) => c,
                    Err(e) => {
                        return Err(e);
                    },
                };
                Ok(CompiledQuery::Filtered { query: Box::new(cq), filter: Box::new(cf) })
            },
            Query::Exclude { query, exclude } => {
                let cq = match self.compile(query) {
                    Ok(c) => c,
                    Err(e) => {
                        return Err(e);
                    },
                };
                let ce = match self.compile(exclude) {
                    Ok(c) => c,
                    Err(e) => {
                        return Err(e);
                    },
                };
                Ok(CompiledQuery::Excl { query: Box::new(cq), exclude: Box::new(ce) })
            },
            Query::Score { query, mul_milli, add_milli } => {
                let cq = match self.compile(query) {
                    Ok(c) => c,
                    Err(e) => {
                        return Err(e);
                    },
                };
                let mul: u64 = if *mul_milli < 0 {
                    0
                } else {
                    *mul_milli as u64
                };
                let add: u64 = if *add_milli < 0 {
                    0
                } else {
                    *add_milli as u64
                };
                Ok(CompiledQuery::Boost { query: Box::new(cq), mul_milli: mul, add_milli: add })
            },
        }
    }

    /// Compiles each query of a list.
    fn compile_list(&self, queries: &Vec<Query>) -> (r: Result<Vec<CompiledQuery>, SchemaError>)
        requires
            self.store.wf(),
        ensures
            r is Err ==> r == Err::<Vec<CompiledQuery>, SchemaError>(SchemaError::UnknownField),
            r is Ok <==> list_fields_mapped(queries@, self.mappings@),
        decreases *queries,
    {
        let mut children: Vec<CompiledQuery> = Vec::new();
        let mut i: usize = 0;
        proof {
            assert(queries@.skip(0) =~= queries@);
        }
        while i < queries.len()
            invariant
                self.store.wf(),
                0 <= i <= queries@.len(),
                list_fields_mapped(queries@, self.mappings@) == list_fields_mapped(
                    queries@.skip(i as int),
                    self.mappings@,
                ),
            decreases queries@.len() - i,
        {
            proof {
                assert(decreases_to!(*queries => queries@));
                assert(decreases_to!(queries@ => queries@[i as int]));
                assert(queries@.skip(i as int)[0] == queries@[i as int]);
                assert(queries@.skip(i as int).skip(1) =~= queries@.skip(i as int + 1));
            }
            match self.compile(&queries[i]) {
                Ok(c) => {
                    children.push(c);
                },
                Err(e) => {
                    return Err(e);
                },
            }
            i = i + 1;
        }
        proof {
            assert(queries@.skip(i as int) =~= Seq::<Query>::empty());
        }
        Ok(children)
    }
}

/// A mapped field whose present value does not coerce makes the whole
/// source uncoercible.
proof fn lemma_not_coercible_here(
    ms: Seq<FieldMapping>,
    df: Seq<(String, Value)>,
    a: int,
    v: Value,
)
    requires
        0 <= a < ms.len(),
        crate::value::obj_lookup(df, ms[a].name@) == Some(v),
        !field_coercible(ms[a], v),
    ensures
        !source_coercible(ms, df),
{
    assert(crate::value::obj_lookup(df, (ms[a]).name@) matches Some(vv) && !field_coercible(
        ms[a],
        vv,
    ));
}

/// A fresh name appended to the schema is found with its reference.
pub proof fn lemma_mapping_lookup_push(ms: Seq<FieldMapping>, m: FieldMapping)
    requires
        mapping_lookup(ms, m.name@) is None,
    ensures
        mapping_lookup(ms.push(m), m.name@) == Some(m.field_ref),
    decreases ms.len(),
{
    if ms.len() == 0 {
        assert(ms.push(m)[0] == m);
        assert(ms.push(m).len() == 1);
    } else {
        assert(ms.push(m)[0] == ms[0]);
        assert(ms[0].name@ != m.name@);
        assert(ms.push(m).skip(1) =~= ms.skip(1).push(m));
        lemma_mapping_lookup_push(ms.skip(1), m);
    }
}

/// Mapping lookup finds a name exactly when some mapping bears it.
pub proof fn lemma_mapping_lookup_exists(ms: Seq<FieldMapping>, name: Seq<char>)
    ensures
        mapping_lookup(ms, name) is Some <==> exists|i: int|
            0 <= i < ms.len() && #[trigger] ms[i].name@ == name,
    decreases ms.len(),
{
    if ms.len() > 0 {
        lemma_mapping_lookup_exists(ms.skip(1), name);
        if ms[0].name@ == name {
        } else {
            if mapping_lookup(ms, name) is Some {
                let i = choose|i: int|
                    0 <= i < ms.skip(1).len() && #[trigger] ms.skip(1)[i].name@ == name;
                assert(ms[i + 1].name@ == name);
            }
            if exists|i: int| 0 <= i < ms.len() && #[trigger] ms[i].name@ == name {
                let i = choose|i: int| 0 <= i < ms.len() && #[trigger] ms[i].name@ == name;
                assert(ms.skip(1)[i - 1].name@ == name);
            }
        }
    }
}

} // verus!
