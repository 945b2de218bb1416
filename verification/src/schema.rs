//! The schema configuration: timestamp patterns, named variable patterns and
//! the delimiter table, extracted from a YAML-shaped document.
//!
//! Loading the document text is an outside concern; the library receives the
//! document as a `YamlValue` tree and owns every rule about its shape.

use vstd::prelude::*;
use vstd::string::StringExecFns;

use crate::ast::RegexAst;
use crate::errors::Error;
use crate::errors::SchemaKey;

verus! {

/// A YAML document value, as far as the schema rules read one.
#[derive(Debug)]
pub enum YamlValue {
    /// A null value.
    Null,
    /// A boolean.
    Bool(bool),
    /// Any numeric value; the schema rules never read the number itself.
    Number,
    /// A string.
    String(String),
    /// A sequence of values.
    Sequence(Vec<YamlValue>),
    /// A mapping, in document order.
    Mapping(Vec<(YamlValue, YamlValue)>),
    /// A tagged value.
    Tagged,
}

/// One timestamp pattern: its source text and its parsed form.
pub struct TimestampSchema {
    pub regex: String,
    pub ast: RegexAst,
}

impl TimestampSchema {
    /// Pairs a pattern's source text with its parsed form.
    pub fn new(regex: String, ast: RegexAst) -> (r: TimestampSchema)
        ensures
            r.regex == regex,
            r.ast == ast,
    {
        TimestampSchema { regex, ast }
    }

    /// The pattern's source text.
    pub fn get_regex(&self) -> (r: &str)
        ensures
            r@ == self.regex@,
    {
        self.regex.as_str()
    }

    /// The pattern's parsed form.
    pub fn get_ast(&self) -> (r: &RegexAst)
        ensures
            r == &self.ast,
    {
        &self.ast
    }
}

/// One named variable pattern: its name, source text and parsed form.
pub struct VarSchema {
    pub name: String,
    pub regex: String,
    pub ast: RegexAst,
}

impl VarSchema {
    /// Pairs a variable's name and pattern text with the pattern's parsed
    /// form.
    pub fn new(name: String, regex: String, ast: RegexAst) -> (r: VarSchema)
        ensures
            r.name == name,
            r.regex == regex,
            r.ast == ast,
    {
        VarSchema { name, regex, ast }
    }

    /// The variable's name.
    pub fn get_name(&self) -> (r: &str)
        ensures
            r@ == self.name@,
    {
        self.name.as_str()
    }

    /// The pattern's source text.
    pub fn get_regex(&self) -> (r: &str)
        ensures
            r@ == self.regex@,
    {
        self.regex.as_str()
    }

    /// The pattern's parsed form.
    pub fn get_ast(&self) -> (r: &RegexAst)
        ensures
            r == &self.ast,
    {
        &self.ast
    }
}

/// The aggregated schema: timestamp patterns, variable patterns in document
/// order, and a 128-entry delimiter table in which newline is always set.
pub struct SchemaConfig {
    pub ts_schemas: Vec<TimestampSchema>,
    pub var_schemas: Vec<VarSchema>,
    pub delimiters: Vec<bool>,
}

impl SchemaConfig {
    /// The delimiter table spans the ASCII alphabet and holds newline.
    pub open spec fn wf(self) -> bool {
        &&& self.delimiters@.len() == 128
        &&& self.delimiters@[10]
    }

    /// The timestamp patterns, in document order.
    pub open spec fn spec_ts_schemas(self) -> Seq<TimestampSchema> {
        self.ts_schemas@
    }

    /// The variable patterns, in document order.
    pub open spec fn spec_var_schemas(self) -> Seq<VarSchema> {
        self.var_schemas@
    }

    /// Whether character index `i` is a delimiter.
    pub open spec fn spec_delimiter(self, i: int) -> bool {
        0 <= i < 128 && self.delimiters@[i]
    }

    /// The timestamp patterns.
    pub fn get_ts_schemas(&self) -> (r: &Vec<TimestampSchema>)
        ensures
            r == &self.ts_schemas,
    {
        &self.ts_schemas
    }

    /// The variable patterns.
    pub fn get_var_schemas(&self) -> (r: &Vec<VarSchema>)
        ensures
            r == &self.var_schemas,
    {
        &self.var_schemas
    }

    /// Whether the character is a configured delimiter; false for any
    /// character above ASCII.
    pub fn has_delimiter(&self, delimiter: char) -> (r: bool)
        requires
            self.wf(),
        ensures
            r == self.spec_delimiter(delimiter as u32 as int),
    {
        let u: u32 = delimiter as u32;
        if u > 127 {
            return false;
        }
        self.delimiters[u as usize]
    }

    /// Builds the schema from compiled pattern lists and the delimiter
    /// characters. Fails exactly when a delimiter byte is above ASCII; the
    /// table then holds exactly those bytes, with newline always added.
    pub fn from_parts(
        ts_schemas: Vec<TimestampSchema>,
        var_schemas: Vec<VarSchema>,
        delimiter_bytes: &Vec<u8>,
    ) -> (r: Result<SchemaConfig, Error>)
        ensures
            (forall|j: int| 0 <= j < delimiter_bytes@.len() ==> delimiter_bytes@[j] < 128) <==> r
                is Ok,
            r matches Err(e) ==> e == Error::NoneASCIICharacters,
            r matches Ok(sc) ==> {
                &&& sc.wf()
                &&& sc.spec_ts_schemas() == ts_schemas@
                &&& sc.spec_var_schemas() == var_schemas@
                &&& forall|i: int|
                    0 <= i < 128 ==> (sc.spec_delimiter(i) <==> (i == 10
                        || delimiter_bytes@.contains(i as u8)))
            },
    {
        let mut delimiters: Vec<bool> = Vec::new();
        let mut k: usize = 0;
        while k < 128
            invariant
                0 <= k <= 128,
                delimiters@.len() == k,
                forall|i: int| 0 <= i < k ==> !delimiters@[i],
            decreases 128 - k,
        {
            delimiters.push(false);
            k = k + 1;
        }
        let mut j: usize = 0;
        while j < delimiter_bytes.len()
            invariant
                0 <= j <= delimiter_bytes@.len(),
                delimiters@.len() == 128,
                forall|m: int| 0 <= m < j ==> delimiter_bytes@[m] < 128,
                forall|i: int|
                    0 <= i < 128 ==> (delimiters@[i] <==> delimiter_bytes@.take(j as int).contains(
                        i as u8,
                    )),
            decreases delimiter_bytes@.len() - j,
        {
            let b = delimiter_bytes[j];
            if b >= 128 {
                return Err(Error::NoneASCIICharacters);
            }
            delimiters = vec_set_bool(delimiters, b as usize, true);
            proof {
                let old_t = delimiter_bytes@.take(j as int);
                let new_t = delimiter_bytes@.take(j + 1);
                assert forall|i: int|
                    0 <= i < 128 implies (delimiters@[i] <==> new_t.contains(i as u8)) by {
                    assert(new_t =~= old_t.push(delimiter_bytes@[j as int]));
                    if i == b as int {
                        assert(new_t[j as int] == i as u8);
                        assert(new_t.contains(i as u8));
                    } else {
                        if old_t.contains(i as u8) {
                            let w = choose|w: int|
                                0 <= w < j && (#[trigger] old_t[w]) == i as u8;
                            assert(new_t[w] == i as u8);
                            assert(new_t.contains(i as u8));
                        }
                        if new_t.contains(i as u8) {
                            let w = choose|w: int|
                                0 <= w < j + 1 && (#[trigger] new_t[w]) == i as u8;
                            if w == j as int {
                                assert(new_t[w] == b);
                                assert(i == b as int);
                            } else {
                                assert(old_t[w] == i as u8);
                                assert(old_t.contains(i as u8));
                            }
                        }
                    }
                }
            }
            j = j + 1;
        }
        proof {
            assert(delimiter_bytes@.take(delimiter_bytes@.len() as int) =~= delimiter_bytes@);
        }
        delimiters = vec_set_bool(delimiters, 10, true);
        Ok(SchemaConfig { ts_schemas, var_schemas, delimiters })
    }
}

/// A copy of the vector with one entry replaced.
fn vec_set_bool(v: Vec<bool>, i: usize, val: bool) -> (r: Vec<bool>)
    requires
        i < v@.len(),
    ensures
        r@ == v@.update(i as int, val),
{
    let mut v = v;
    let mut out: Vec<bool> = Vec::new();
    let mut k: usize = 0;
    while k < v.len()
        invariant
            0 <= k <= v@.len(),
            i < v@.len(),
            out@.len() == k,
            forall|m: int| 0 <= m < k ==> out@[m] == v@.update(i as int, val)[m],
        decreases v@.len() - k,
    {
        if k == i {
            out.push(val);
        } else {
            out.push(v[k]);
        }
        k = k + 1;
    }
    proof {
        assert(out@ =~= v@.update(i as int, val));
    }
    out
}

/// The value under the first string key equal to `key`, if any.
pub open spec fn spec_lookup(kvs: Seq<(YamlValue, YamlValue)>, key: Seq<char>) -> Option<
    YamlValue,
>
    decreases kvs.len(),
{
    if kvs.len() == 0 {
        Option::None
    } else {
        match kvs[0].0 {
            YamlValue::String(s) => if s@ == key {
                Option::Some(kvs[0].1)
            } else {
                spec_lookup(kvs.drop_first(), key)
            },
            _ => spec_lookup(kvs.drop_first(), key),
        }
    }
}

/// `out` lists the text of each value, all of which are strings.
pub open spec fn spec_string_items(vs: Seq<YamlValue>, out: Seq<Seq<char>>) -> bool {
    &&& out.len() == vs.len()
    &&& forall|i: int|
        0 <= i < vs.len() ==> ((#[trigger] vs[i]) matches YamlValue::String(s) && s@ == out[i])
}

/// `out` lists the text of each key-value pair, all of which are strings.
pub open spec fn spec_string_pairs(
    ps: Seq<(YamlValue, YamlValue)>,
    out: Seq<(Seq<char>, Seq<char>)>,
) -> bool {
    &&& out.len() == ps.len()
    &&& forall|i: int|
        0 <= i < ps.len() ==> ((#[trigger] ps[i]).0 matches YamlValue::String(a) && ps[i].1
            matches YamlValue::String(b) && out[i].0 == a@ && out[i].1 == b@)
}

/// The names of the variable pairs.
pub open spec fn spec_pair_views(out: Seq<(String, String)>) -> Seq<(Seq<char>, Seq<char>)> {
    out.map_values(|p: (String, String)| (p.0@, p.1@))
}

/// The text of each string in a list.
pub open spec fn spec_string_views(out: Seq<String>) -> Seq<Seq<char>> {
    out.map_values(|s: String| s@)
}

/// The three keys are present with the right shapes: a sequence of strings,
/// a mapping of strings to strings, and a string.
pub open spec fn spec_schema_shape_ok(kvs: Seq<(YamlValue, YamlValue)>) -> bool {
    &&& spec_lookup(kvs, "timestamp"@) matches Option::Some(tv) && tv
        matches YamlValue::Sequence(items) && (forall|i: int|
        0 <= i < items@.len() ==> (#[trigger] items@[i]) is String)
    &&& spec_lookup(kvs, "variables"@) matches Option::Some(vv) && vv matches YamlValue::Mapping(
        ps,
    ) && (forall|i: int|
        0 <= i < ps@.len() ==> ((#[trigger] ps@[i]).0 is String && ps@[i].1 is String))
    &&& spec_lookup(kvs, "delimiters"@) matches Option::Some(dv) && dv is String
}

/// The `timestamp` key holds a well-shaped value: a sequence of strings.
pub open spec fn spec_ts_shape_ok(kvs: Seq<(YamlValue, YamlValue)>) -> bool {
    match spec_lookup(kvs, "timestamp"@) {
        Option::Some(YamlValue::Sequence(items)) => forall|i: int|
            0 <= i < items@.len() ==> (#[trigger] items@[i]) is String,
        _ => false,
    }
}

/// The `variables` key holds a well-shaped value: a mapping of strings to
/// strings.
pub open spec fn spec_vars_shape_ok(kvs: Seq<(YamlValue, YamlValue)>) -> bool {
    match spec_lookup(kvs, "variables"@) {
        Option::Some(YamlValue::Mapping(ps)) => forall|i: int|
            0 <= i < ps@.len() ==> ((#[trigger] ps@[i]).0 is String && ps@[i].1 is String),
        _ => false,
    }
}

/// The value stored under a string key, scanning from index `i`.
fn lookup_key<'a>(kvs: &'a Vec<(YamlValue, YamlValue)>, i: usize, key: &String) -> (r: Option<
    &'a YamlValue,
>)
    requires
        i <= kvs@.len(),
    ensures
        match spec_lookup(kvs@.skip(i as int), key@) {
            Option::Some(v) => r matches Option::Some(rv) && *rv == v,
            Option::None => r is None,
        },
    decreases kvs@.len() - i,
{
    if i == kvs.len() {
        return None;
    }
    proof {
        assert(kvs@.skip(i as int)[0] == kvs@[i as int]);
        assert(kvs@.skip(i as int).drop_first() =~= kvs@.skip(i + 1));
    }
    let pair = &kvs[i];
    proof {
        assert(*pair == kvs@[i as int]);
    }
    match &pair.0 {
        YamlValue::String(s) => {
            if s.eq(key) {
                proof {
                    assert(kvs@.skip(i as int)[0].0 matches YamlValue::String(s0) && s0@ == key@);
                    assert(spec_lookup(kvs@.skip(i as int), key@) == Option::Some(
                        kvs@[i as int].1,
                    ));
                }
                Some(&pair.1)
            } else {
                proof {
                    assert(spec_lookup(kvs@.skip(i as int), key@) == spec_lookup(
                        kvs@.skip(i + 1),
                        key@,
                    ));
                }
                lookup_key(kvs, i + 1, key)
            }
        },
        _ => {
            proof {
                assert(!(kvs@.skip(i as int)[0].0 is String));
                assert(spec_lookup(kvs@.skip(i as int), key@) == spec_lookup(
                    kvs@.skip(i + 1),
                    key@,
                ));
            }
            lookup_key(kvs, i + 1, key)
        },
    }
}

impl SchemaConfig {
    /// Validates the shape of a schema document and extracts its plain
    /// parts: the timestamp pattern texts, the named variable pattern texts
    /// in document order, and the delimiter characters. Each of the three
    /// keys must be present — `timestamp` a sequence of strings, `variables`
    /// a mapping from strings to strings, `delimiters` a string — and a
    /// missing key or a wrong shape is the only failure.
    #[verifier::loop_isolation(false)]
    pub fn extract_schema_parts(kv_pairs: &Vec<(YamlValue, YamlValue)>) -> (r: Result<
        (Vec<String>, Vec<(String, String)>, String),
        Error,
    >)
        ensures
            r matches Ok(parts) ==> {
                &&& spec_lookup(kv_pairs@, "timestamp"@) matches Option::Some(tv) && tv
                    matches YamlValue::Sequence(items) && spec_string_items(
                    items@,
                    spec_string_views(parts.0@),
                )
                &&& spec_lookup(kv_pairs@, "variables"@) matches Option::Some(vv) && vv
                    matches YamlValue::Mapping(ps) && spec_string_pairs(
                    ps@,
                    spec_pair_views(parts.1@),
                )
                &&& spec_lookup(kv_pairs@, "delimiters"@) matches Option::Some(dv) && dv
                    matches YamlValue::String(ds) && parts.2@ == ds@
            },
            spec_lookup(kv_pairs@, "timestamp"@) is None ==> (r matches Err(e) && e
                == Error::MissingSchemaKey(SchemaKey::Timestamp)),
            spec_lookup(kv_pairs@, "timestamp"@) is Some && !spec_ts_shape_ok(kv_pairs@) ==> (r
                matches Err(e) && e == Error::InvalidSchema),
            spec_ts_shape_ok(kv_pairs@) && spec_lookup(kv_pairs@, "variables"@) is None ==> (r
                matches Err(e) && e == Error::MissingSchemaKey(SchemaKey::Variables)),
            spec_ts_shape_ok(kv_pairs@) && spec_lookup(kv_pairs@, "variables"@) is Some
                && !spec_vars_shape_ok(kv_pairs@) ==> (r matches Err(e) && e
                == Error::InvalidSchema),
            spec_ts_shape_ok(kv_pairs@) && spec_vars_shape_ok(kv_pairs@) && spec_lookup(
                kv_pairs@,
                "delimiters"@,
            ) is None ==> (r matches Err(e) && e == Error::MissingSchemaKey(SchemaKey::Delimiters)),
            spec_ts_shape_ok(kv_pairs@) && spec_vars_shape_ok(kv_pairs@) && (match spec_lookup(
                kv_pairs@,
                "delimiters"@,
            ) {
                Option::Some(dv) => !(dv is String),
                Option::None => false,
            }) ==> (r matches Err(e) && e == Error::InvalidSchema),
            r matches Err(e) ==> (e matches Error::MissingSchemaKey(_) || e
                == Error::InvalidSchema),
            spec_schema_shape_ok(kv_pairs@) ==> r is Ok,
    {
        proof {
            assert(kv_pairs@.skip(0) =~= kv_pairs@);
        }
        let ts_key = String::from_str("timestamp");
        let var_key = String::from_str("variables");
        let delim_key = String::from_str("delimiters");

        let timestamps = match lookup_key(kv_pairs, 0, &ts_key) {
            Some(v) => v,
            None => {
                return Err(Error::MissingSchemaKey(SchemaKey::Timestamp));
            },
        };
        let mut ts_out: Vec<String> = Vec::new();
        match timestamps {
            YamlValue::Sequence(items) => {
                let mut i: usize = 0;
                while i < items.len()
                    invariant
                        0 <= i <= items@.len(),
                        spec_string_items(items@.take(i as int), spec_string_views(ts_out@)),
                    decreases items@.len() - i,
                {
                    match &items[i] {
                        YamlValue::String(s) => {
                            let ghost out_before = ts_out@;
                            ts_out.push(s.clone());
                            proof {
                                assert(spec_string_views(ts_out@) =~= spec_string_views(
                                    out_before,
                                ).push(ts_out@.last()@));
                                assert(items@.take(i + 1) =~= items@.take(i as int).push(
                                    items@[i as int],
                                ));
                            }
                        },
                        _ => {
                            return Err(Error::InvalidSchema);
                        },
                    }
                    i = i + 1;
                }
                proof {
                    assert(items@.take(items@.len() as int) =~= items@);
                }
            },
            _ => {
                return Err(Error::InvalidSchema);
            },
        }

        let vars = match lookup_key(kv_pairs, 0, &var_key) {
            Some(v) => v,
            None => {
                return Err(Error::MissingSchemaKey(SchemaKey::Variables));
            },
        };
        let mut var_out: Vec<(String, String)> = Vec::new();
        match vars {
            YamlValue::Mapping(pairs) => {
                let mut i: usize = 0;
                while i < pairs.len()
                    invariant
                        0 <= i <= pairs@.len(),
                        spec_string_pairs(pairs@.take(i as int), spec_pair_views(var_out@)),
                    decreases pairs@.len() - i,
                {
                    match (&pairs[i].0, &pairs[i].1) {
                        (YamlValue::String(name), YamlValue::String(regex)) => {
                            let ghost out_before = var_out@;
                            var_out.push((name.clone(), regex.clone()));
                            proof {
                                assert(spec_pair_views(var_out@) =~= spec_pair_views(
                                    out_before,
                                ).push((var_out@.last().0@, var_out@.last().1@)));
                                assert(pairs@.take(i + 1) =~= pairs@.take(i as int).push(
                                    pairs@[i as int],
                                ));
                            }
                        },
                        _ => {
                            return Err(Error::InvalidSchema);
                        },
                    }
                    i = i + 1;
                }
                proof {
                    assert(pairs@.take(pairs@.len() as int) =~= pairs@);
                }
            },
            _ => {
                return Err(Error::InvalidSchema);
            },
        }

        let delimiters = match lookup_key(kv_pairs, 0, &delim_key) {
            Some(v) => v,
            None => {
                return Err(Error::MissingSchemaKey(SchemaKey::Delimiters));
            },
        };
        let delim_out = match delimiters {
            YamlValue::String(s) => s.clone(),
            _ => {
                return Err(Error::InvalidSchema);
            },
        };
        Ok((ts_out, var_out, delim_out))
    }
}

} // verus!
