use vstd::prelude::*;

use crate::error::LlkError;
use crate::grammar::model_of;
use crate::grammar::norm_prod_v;
use crate::grammar::GrammarModel;
use crate::grammar::LlkGrammar;
use crate::grammar::LlkProduction;
use crate::grammar::LLK_MAX_LOOKAHEAD;
use crate::util::to_chars;

verus! {

/// The mathematical content of a JSON value, as far as this decoder
/// reads it: null, a number (its value when it is representable as
/// u64), text, an array, or an object as a list of keyed members.
/// Values this decoder never distinguishes (booleans, non-u64
/// numbers) all read as a number without a u64 value.
pub enum JsonDoc {
    Null,
    Num(Option<u64>),
    Str(Seq<char>),
    Arr(Seq<JsonDoc>),
    Obj(Seq<(Seq<char>, JsonDoc)>),
}

/// The member of an object under `key`: the first entry with that
/// key, or absence.
pub open spec fn obj_get(fields: Seq<(Seq<char>, JsonDoc)>, key: Seq<char>) -> Option<JsonDoc>
    decreases fields.len(),
{
    if fields.len() == 0 {
        None
    } else if fields[0].0 == key {
        Some(fields[0].1)
    } else {
        obj_get(fields.drop_first(), key)
    }
}

/// What serde_json's parser returns on a given document text: the
/// parsed value's content, or absence on malformed input. The parse
/// depends on the text alone.
pub uninterp spec fn json_doc_of(s: Seq<char>) -> Option<JsonDoc>;

/// The content of a parsed serde_json value.
pub uninterp spec fn json_view(v: serde_json::Value) -> JsonDoc;

/// serde_json's JSON value, declared so that decoded documents can be
/// carried through verified code; `json_view` names its content.
#[verifier::external_type_specification]
#[verifier::external_body]
pub struct ExJsonValue(serde_json::Value);

/// Relies on serde_json::from_str::<Value>: parses a JSON document,
/// or fails on malformed input. The parse error itself carries no
/// information this decoder reports, so it is folded into absence.
#[verifier::external_body]
fn json_from_str(s: &str) -> (r: Option<serde_json::Value>)
    ensures
        (r is Some) == (json_doc_of(s@) is Some),
        r matches Some(v) ==> Some(json_view(v)) == json_doc_of(s@),
{
    match serde_json::from_str::<serde_json::Value>(s) {
        Ok(v) => Some(v),
        Err(_) => None,
    }
}

/// Relies on serde_json::Value::get: the member of a JSON object
/// under the given key, or absence when the value is no object or
/// lacks the key.
#[verifier::external_body]
fn json_get<'a>(v: &'a serde_json::Value, key: &str) -> (r: Option<&'a serde_json::Value>)
    ensures
        (r is Some) == (json_view(*v) is Obj && obj_get(json_view(*v)->Obj_0, key@) is Some),
        r matches Some(f) ==> Some(json_view(*f)) == obj_get(json_view(*v)->Obj_0, key@),
{
    v.get(key)
}

/// Relies on serde_json::Value::as_str: the text of a JSON string
/// value, owned, or absence when the value is no string.
#[verifier::external_body]
fn json_as_string(v: &serde_json::Value) -> (r: Option<String>)
    ensures
        (r is Some) == (json_view(*v) is Str),
        r matches Some(s) ==> s@ == json_view(*v)->Str_0,
{
    match v.as_str() {
        Some(s) => Some(s.to_owned()),
        None => None,
    }
}

/// Relies on serde_json::Value::as_u64: the value of a JSON number
/// representable as u64, or absence otherwise.
#[verifier::external_body]
fn json_as_u64(v: &serde_json::Value) -> (r: Option<u64>)
    ensures
        r == (match json_view(*v) {
            JsonDoc::Num(n) => n,
            _ => None::<u64>,
        }),
{
    v.as_u64()
}

/// Relies on serde_json::Value::as_array: the elements of a JSON
/// array, or absence when the value is no array.
#[verifier::external_body]
fn json_as_array<'a>(v: &'a serde_json::Value) -> (r: Option<&'a Vec<serde_json::Value>>)
    ensures
        (r is Some) == (json_view(*v) is Arr),
        r matches Some(a) ==> a@.len() == json_view(*v)->Arr_0.len() && forall|i: int|
            0 <= i < a@.len() ==> json_view(#[trigger] a@[i]) == json_view(*v)->Arr_0[i],
{
    v.as_array()
}

/// Relies on serde_json::Value::is_null: whether the value is JSON
/// null.
#[verifier::external_body]
fn json_is_null(v: &serde_json::Value) -> (r: bool)
    ensures
        r == (json_view(*v) is Null),
{
    v.is_null()
}

/// A production read from one member of the productions array: a
/// one-character `nterm` and a `derivative` that is text, null or
/// absent — empty text, null and absence all standing for epsilon.
/// Absence of the result is a structural mismatch.
pub open spec fn prod_of_doc(e: JsonDoc) -> Option<(char, Option<Seq<char>>)> {
    if !(e is Obj) {
        None
    } else {
        let fields = e->Obj_0;
        match obj_get(fields, "nterm"@) {
            Some(JsonDoc::Str(n)) => if n.len() == 1 {
                match obj_get(fields, "derivative"@) {
                    None => Some((n[0], None)),
                    Some(JsonDoc::Null) => Some((n[0], None)),
                    Some(JsonDoc::Str(d)) => Some(
                        (
                            n[0],
                            if d.len() == 0 {
                                None
                            } else {
                                Some(d)
                            },
                        ),
                    ),
                    Some(_) => None,
                }
            } else {
                None
            },
            _ => None,
        }
    }
}

/// The productions read from an array of members, in order; absence
/// when any member is mismatched.
pub open spec fn prods_of_docs(elems: Seq<JsonDoc>) -> Option<Seq<(char, Option<Seq<char>>)>>
    decreases elems.len(),
{
    if elems.len() == 0 {
        Some(Seq::empty())
    } else {
        match prods_of_docs(elems.drop_last()) {
            None => None,
            Some(front) => match prod_of_doc(elems.last()) {
                None => None,
                Some(p) => Some(front.push(p)),
            },
        }
    }
}

/// One mismatched member spoils the whole list.
proof fn lemma_prods_of_docs_bad(elems: Seq<JsonDoc>, i: int)
    requires
        0 <= i < elems.len(),
        prod_of_doc(elems[i]) is None,
    ensures
        prods_of_docs(elems) is None,
    decreases elems.len(),
{
    if i < elems.len() - 1 {
        assert(elems.drop_last()[i] == elems[i]);
        lemma_prods_of_docs_bad(elems.drop_last(), i);
    }
}

/// The grammar model a document describes: an object with the two
/// alphabets as text, a one-character start symbol, a u64 lookahead
/// (values over the accepted maximum read as just past it, which the
/// validator then rejects), and the production list. Absence is a
/// structural mismatch.
pub open spec fn grammar_of_doc(doc: JsonDoc) -> Option<GrammarModel> {
    if !(doc is Obj) {
        None
    } else {
        let fields = doc->Obj_0;
        match obj_get(fields, "term_symbols"@) {
            Some(JsonDoc::Str(ts)) => match obj_get(fields, "nterm_symbols"@) {
                Some(JsonDoc::Str(ns)) => match obj_get(fields, "start_symbol"@) {
                    Some(JsonDoc::Str(ss)) => if ss.len() == 1 {
                        match obj_get(fields, "lookahead"@) {
                            Some(JsonDoc::Num(Some(n))) => match obj_get(fields, "productions"@) {
                                Some(JsonDoc::Arr(elems)) => match prods_of_docs(elems) {
                                    Some(ps) => Some(
                                        GrammarModel {
                                            terms: ts,
                                            nterms: ns,
                                            start: ss[0],
                                            k: if n > LLK_MAX_LOOKAHEAD as u64 {
                                                (LLK_MAX_LOOKAHEAD + 1) as nat
                                            } else {
                                                n as nat
                                            },
                                            prods: ps,
                                        },
                                    ),
                                    None => None,
                                },
                                _ => None,
                            },
                            _ => None,
                        }
                    } else {
                        None
                    },
                    _ => None,
                },
                _ => None,
            },
            _ => None,
        }
    }
}

/// The grammar model a document text describes: the parse of the text
/// followed by `grammar_of_doc`; absence on malformed text or a
/// structural mismatch.
pub open spec fn grammar_doc_model(s: Seq<char>) -> Option<GrammarModel> {
    match json_doc_of(s) {
        None => None,
        Some(doc) => grammar_of_doc(doc),
    }
}

/// Decodes the external grammar encoding and validates the described
/// grammar. The decoding fails — with a decoding error, exactly —
/// when the text is not JSON or the document is not of the shape
/// `grammar_of_doc` reads; on a well-shaped document the result is
/// the validated grammar of the described model, or the validator's
/// error.
pub fn parse_grammar_json(json_string: &str) -> (r: Result<LlkGrammar, LlkError>)
    ensures
        (grammar_doc_model(json_string@) is None) == (r matches Err(e)
            && e is GrammarFromJsonFailed),
        grammar_doc_model(json_string@) matches Some(m) ==> {
            &&& (r is Ok <==> m.valid())
            &&& (r matches Ok(g) ==> g@ == m && g@.wf())
            &&& (r matches Err(e) ==> e is InvalidGrammar)
        },
        r matches Err(e) ==> (e is GrammarFromJsonFailed || e is InvalidGrammar),
{
    let values = match json_from_str(json_string) {
        None => {
            return Err(LlkError::GrammarFromJsonFailed("invalid JSON document".to_owned()));
        },
        Some(v) => v,
    };
    let ghost doc = json_view(values);
    let term_symbols = match json_get(&values, "term_symbols") {
        Some(v) => match json_as_string(v) {
            Some(s) => to_chars(s.as_str()),
            None => {
                proof {
                    assert(grammar_of_doc(doc) is None);
                }
                return Err(
                    LlkError::GrammarFromJsonFailed(
                        "invalid terminal symbols definition format".to_owned(),
                    ),
                );
            },
        },
        None => {
            proof {
                assert(grammar_of_doc(doc) is None);
            }
            return Err(
                LlkError::GrammarFromJsonFailed(
                    "invalid terminal symbols definition format".to_owned(),
                ),
            );
        },
    };
    let nterm_symbols = match json_get(&values, "nterm_symbols") {
        Some(v) => match json_as_string(v) {
            Some(s) => to_chars(s.as_str()),
            None => {
                proof {
                    assert(grammar_of_doc(doc) is None);
                }
                return Err(
                    LlkError::GrammarFromJsonFailed(
                        "invalid non-terminal symbols definition format".to_owned(),
                    ),
                );
            },
        },
        None => {
            proof {
                assert(grammar_of_doc(doc) is None);
            }
            return Err(
                LlkError::GrammarFromJsonFailed(
                    "invalid non-terminal symbols definition format".to_owned(),
                ),
            );
        },
    };
    let start_chars = match json_get(&values, "start_symbol") {
        Some(v) => match json_as_string(v) {
            Some(s) => to_chars(s.as_str()),
            None => {
                proof {
                    assert(grammar_of_doc(doc) is None);
                }
                return Err(
                    LlkError::GrammarFromJsonFailed(
                        "invalid start symbol definition format".to_owned(),
                    ),
                );
            },
        },
        None => {
            proof {
                assert(grammar_of_doc(doc) is None);
            }
            return Err(
                LlkError::GrammarFromJsonFailed(
                    "invalid start symbol definition format".to_owned(),
                ),
            );
        },
    };
    if start_chars.len() != 1 {
        proof {
            assert(grammar_of_doc(doc) is None);
        }
        return Err(LlkError::GrammarFromJsonFailed("invalid start symbol definition".to_owned()));
    }
    let start_symbol = start_chars[0];
    let lookahead_raw = match json_get(&values, "lookahead") {
        Some(v) => match json_as_u64(v) {
            Some(n) => n,
            None => {
                proof {
                    assert(grammar_of_doc(doc) is None);
                }
                return Err(
                    LlkError::GrammarFromJsonFailed(
                        "invalid lookahead definition format".to_owned(),
                    ),
                );
            },
        },
        None => {
            proof {
                assert(grammar_of_doc(doc) is None);
            }
            return Err(
                LlkError::GrammarFromJsonFailed("invalid lookahead definition format".to_owned()),
            );
        },
    };
    let lookahead: usize = if lookahead_raw > LLK_MAX_LOOKAHEAD as u64 {
        // out of range either way; this value fails the validator's
        // range check
        LLK_MAX_LOOKAHEAD + 1
    } else {
        lookahead_raw as usize
    };
    let production_values = match json_get(&values, "productions") {
        Some(v) => match json_as_array(v) {
            Some(a) => a,
            None => {
                proof {
                    assert(grammar_of_doc(doc) is None);
                }
                return Err(
                    LlkError::GrammarFromJsonFailed(
                        "invalid productions definition format".to_owned(),
                    ),
                );
            },
        },
        None => {
            proof {
                assert(grammar_of_doc(doc) is None);
            }
            return Err(
                LlkError::GrammarFromJsonFailed(
                    "invalid productions definition format".to_owned(),
                ),
            );
        },
    };
    let ghost elems = match obj_get(doc->Obj_0, "productions"@) {
        Some(JsonDoc::Arr(es)) => es,
        _ => Seq::empty(),
    };
    proof {
        assert(grammar_of_doc(doc) == (match prods_of_docs(elems) {
            None => None,
            Some(ps) => Some(
                GrammarModel {
                    terms: term_symbols@,
                    nterms: nterm_symbols@,
                    start: start_symbol,
                    k: lookahead as nat,
                    prods: ps,
                },
            ),
        }));
    }
    let mut productions: Vec<LlkProduction> = Vec::new();
    let mut i: usize = 0;
    while i < production_values.len()
        invariant
            0 <= i <= production_values@.len(),
            production_values@.len() == elems.len(),
            forall|i2: int|
                0 <= i2 < elems.len() ==> json_view(#[trigger] production_values@[i2]) == elems[i2],
            prods_of_docs(elems.take(i as int)) == Some(
                productions@.map_values(|p: (char, Option<String>)| norm_prod_v(p)),
            ),
            json_doc_of(json_string@) == Some(doc),
            grammar_of_doc(doc) == (match prods_of_docs(elems) {
                None => None,
                Some(ps) => Some(
                    GrammarModel {
                        terms: term_symbols@,
                        nterms: nterm_symbols@,
                        start: start_symbol,
                        k: lookahead as nat,
                        prods: ps,
                    },
                ),
            }),
        decreases production_values@.len() - i,
    {
        let production = &production_values[i];
        let ghost e = elems[i as int];
        let nterm_chars = match json_get(production, "nterm") {
            Some(v) => match json_as_string(v) {
                Some(s) => to_chars(s.as_str()),
                None => {
                    proof {
                        assert(prod_of_doc(e) is None);
                        lemma_prods_of_docs_bad(elems, i as int);
                        assert(grammar_of_doc(doc) is None);
                    }
                    return Err(
                        LlkError::GrammarFromJsonFailed(
                            "invalid production non-terminal definition format".to_owned(),
                        ),
                    );
                },
            },
            None => {
                proof {
                    assert(prod_of_doc(e) is None);
                    lemma_prods_of_docs_bad(elems, i as int);
                    assert(grammar_of_doc(doc) is None);
                }
                return Err(
                    LlkError::GrammarFromJsonFailed(
                        "invalid production non-terminal definition format".to_owned(),
                    ),
                );
            },
        };
        if nterm_chars.len() != 1 {
            proof {
                assert(prod_of_doc(e) is None);
                lemma_prods_of_docs_bad(elems, i as int);
                assert(grammar_of_doc(doc) is None);
            }
            return Err(
                LlkError::GrammarFromJsonFailed(
                    "invalid production non-terminal definition".to_owned(),
                ),
            );
        }
        let nterm = nterm_chars[0];
        let derivative: Option<String> = match json_get(production, "derivative") {
            None => None,
            Some(v) => {
                if json_is_null(v) {
                    None
                } else {
                    match json_as_string(v) {
                        Some(s) => Some(s),
                        None => {
                            proof {
                                assert(prod_of_doc(e) is None);
                                lemma_prods_of_docs_bad(elems, i as int);
                                assert(grammar_of_doc(doc) is None);
                            }
                            return Err(
                                LlkError::GrammarFromJsonFailed(
                                    "invalid production derivative definition".to_owned(),
                                ),
                            );
                        },
                    }
                }
            },
        };
        proof {
            assert(prod_of_doc(e) == Some(norm_prod_v((nterm, derivative))));
        }
        productions.push((nterm, derivative));
        proof {
            assert(elems.take(i + 1 as int).drop_last() =~= elems.take(i as int));
            assert(elems.take(i + 1 as int).last() == e);
            assert(productions@.map_values(|p: (char, Option<String>)| norm_prod_v(p))
                =~= productions@.drop_last().map_values(
                |p: (char, Option<String>)| norm_prod_v(p),
            ).push(norm_prod_v((nterm, derivative))));
        }
        i = i + 1;
    }
    proof {
        assert(elems.take(elems.len() as int) =~= elems);
    }
    let ghost m = grammar_of_doc(doc)->0;
    proof {
        assert(grammar_of_doc(doc) is Some);
        assert(m == model_of(
            term_symbols@,
            nterm_symbols@,
            start_symbol,
            lookahead as nat,
            productions@,
        )) by {
            assert(m.prods =~= productions@.map_values(
                |p: (char, Option<String>)| norm_prod_v(p),
            ));
        }
    }
    match LlkGrammar::new(term_symbols, nterm_symbols, start_symbol, lookahead, productions) {
        Err(e) => Err(e),
        Ok(g) => Ok(g),
    }
}

} // verus!
