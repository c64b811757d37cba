//! The playbook: the ordered list of module declarations a run is built
//! from, and the module variants themselves.

use vstd::prelude::*;

use crate::text::strs_view;

verus! {

/// How raw input records are structured.
#[derive(Debug, Clone, Copy, PartialEq, Eq, Structural)]
pub enum ReportingFrequency {
    Daily,
    Weekly,
    Monthly,
}

/// Model of an ingestion schema.
#[verifier::ext_equal]
pub enum SpecSchema {
    Csv { file: Seq<char>, separator: Seq<char>, mapping: Seq<(Seq<char>, Seq<char>)> },
    Edifact { file: Seq<char> },
    Json { file: Seq<char> },
}

/// How the ingestion collaborator reads raw input into records.
#[derive(Debug)]
pub enum IngestionSchema {
    Csv { file: String, separator: String, mapping: Vec<(String, String)> },
    Edifact { file: String },
    Json { file: String },
}

/// View of a list of string pairs.
pub open spec fn pairs_view(ps: Seq<(String, String)>) -> Seq<(Seq<char>, Seq<char>)> {
    Seq::new(ps.len(), |i: int| (ps[i].0@, ps[i].1@))
}

impl View for IngestionSchema {
    type V = SpecSchema;

    open spec fn view(&self) -> SpecSchema {
        match self {
            IngestionSchema::Csv { file, separator, mapping } => SpecSchema::Csv {
                file: file@,
                separator: separator@,
                mapping: pairs_view(mapping@),
            },
            IngestionSchema::Edifact { file } => SpecSchema::Edifact { file: file@ },
            IngestionSchema::Json { file } => SpecSchema::Json { file: file@ },
        }
    }
}

/// The file that a schema reads.
pub open spec fn spec_schema_file(s: SpecSchema) -> Seq<char> {
    match s {
        SpecSchema::Csv { file, .. } => file,
        SpecSchema::Edifact { file } => file,
        SpecSchema::Json { file } => file,
    }
}

impl IngestionSchema {
    /// The file this schema reads.
    pub fn file(&self) -> (r: &str)
        ensures
            r@ == spec_schema_file(self@),
    {
        match self {
            IngestionSchema::Csv { file, .. } => file.as_str(),
            IngestionSchema::Edifact { file } => file.as_str(),
            IngestionSchema::Json { file } => file.as_str(),
        }
    }

    /// A value equal to `self` (a deep copy).
    pub fn duplicate(&self) -> (r: IngestionSchema)
        ensures
            r@ == self@,
    {
        match self {
            IngestionSchema::Csv { file, separator, mapping } => {
                let mut m2: Vec<(String, String)> = Vec::new();
                let mut i: usize = 0;
                while i < mapping.len()
                    invariant
                        i <= mapping@.len(),
                        m2@.len() == i,
                        forall|k: int|
                            0 <= k < i ==> m2@[k].0@ == mapping@[k].0@ && m2@[k].1@
                                == mapping@[k].1@,
                    decreases mapping@.len() - i,
                {
                    m2.push((mapping[i].0.clone(), mapping[i].1.clone()));
                    i += 1;
                }
                proof {
                    assert(pairs_view(m2@) =~= pairs_view(mapping@));
                }
                IngestionSchema::Csv {
                    file: file.clone(),
                    separator: separator.clone(),
                    mapping: m2,
                }
            },
            IngestionSchema::Edifact { file } => IngestionSchema::Edifact { file: file.clone() },
            IngestionSchema::Json { file } => IngestionSchema::Json { file: file.clone() },
        }
    }
}

/// The record-level schema of a file-ingestion module.
#[derive(Debug)]
pub struct SchemaRecords {
    pub records: IngestionSchema,
}

impl View for SchemaRecords {
    type V = SpecSchema;

    open spec fn view(&self) -> SpecSchema {
        self.records@
    }
}

impl SchemaRecords {
    /// A value equal to `self` (a deep copy).
    pub fn duplicate(&self) -> (r: SchemaRecords)
        ensures
            r@ == self@,
    {
        SchemaRecords { records: self.records.duplicate() }
    }
}

/// Model of a module declaration.
#[verifier::ext_equal]
pub enum SpecModule {
    MessageIngestion { schema: SpecSchema, name: Seq<char> },
    FileIngestion { schema: SpecSchema, name: Seq<char> },
    Splitting {
        array_path: Seq<char>,
        allow_empty: bool,
        name: Seq<char>,
        input: Option<Seq<char>>,
    },
    Reporting {
        scheduling: ReportingFrequency,
        format: Seq<char>,
        name: Seq<char>,
        input: Option<Seq<char>>,
    },
    Logic {
        rules: Seq<Seq<char>>,
        routes: Seq<Seq<char>>,
        name: Seq<char>,
        input: Option<Seq<char>>,
    },
    Aggregation { key: Seq<Seq<char>>, name: Seq<char>, input: Option<Seq<char>> },
    Deduplication { key: Seq<Seq<char>>, name: Seq<char>, input: Option<Seq<char>> },
    Lookup { name: Seq<char>, input: Option<Seq<char>> },
}

/// One stage of the pipeline, as declared in the playbook. Every variant
/// carries a unique `name`; all but the ingestion variants carry an
/// optional `input` reference of the form `producerName.routeLabel`.
#[derive(Debug)]
pub enum Module {
    MessageIngestion { schema: IngestionSchema, name: String },
    FileIngestion { schema: SchemaRecords, name: String },
    Splitting { array_path: String, allow_empty: bool, name: String, input: Option<String> },
    Reporting {
        scheduling: ReportingFrequency,
        format: String,
        name: String,
        input: Option<String>,
    },
    Logic { rules: Vec<String>, routes: Vec<String>, name: String, input: Option<String> },
    Aggregation { key: Vec<String>, name: String, input: Option<String> },
    Deduplication { key: Vec<String>, name: String, input: Option<String> },
    Lookup { name: String, input: Option<String> },
}

/// View of an optional string.
pub open spec fn opt_view(o: Option<String>) -> Option<Seq<char>> {
    match o {
        Some(s) => Some(s@),
        None => None,
    }
}

impl View for Module {
    type V = SpecModule;

    open spec fn view(&self) -> SpecModule {
        match self {
            Module::MessageIngestion { schema, name } => SpecModule::MessageIngestion {
                schema: schema@,
                name: name@,
            },
            Module::FileIngestion { schema, name } => SpecModule::FileIngestion {
                schema: schema@,
                name: name@,
            },
            Module::Splitting { array_path, allow_empty, name, input } => SpecModule::Splitting {
                array_path: array_path@,
                allow_empty: *allow_empty,
                name: name@,
                input: opt_view(*input),
            },
            Module::Reporting { scheduling, format, name, input } => SpecModule::Reporting {
                scheduling: *scheduling,
                format: format@,
                name: name@,
                input: opt_view(*input),
            },
            Module::Logic { rules, routes, name, input } => SpecModule::Logic {
                rules: strs_view(rules@),
                routes: strs_view(routes@),
                name: name@,
                input: opt_view(*input),
            },
            Module::Aggregation { key, name, input } => SpecModule::Aggregation {
                key: strs_view(key@),
                name: name@,
                input: opt_view(*input),
            },
            Module::Deduplication { key, name, input } => SpecModule::Deduplication {
                key: strs_view(key@),
                name: name@,
                input: opt_view(*input),
            },
            Module::Lookup { name, input } => SpecModule::Lookup {
                name: name@,
                input: opt_view(*input),
            },
        }
    }
}

/// The name of a module.
pub open spec fn spec_name(m: SpecModule) -> Seq<char> {
    match m {
        SpecModule::MessageIngestion { name, .. } => name,
        SpecModule::FileIngestion { name, .. } => name,
        SpecModule::Splitting { name, .. } => name,
        SpecModule::Reporting { name, .. } => name,
        SpecModule::Logic { name, .. } => name,
        SpecModule::Aggregation { name, .. } => name,
        SpecModule::Deduplication { name, .. } => name,
        SpecModule::Lookup { name, .. } => name,
    }
}

/// The input reference of a module; ingestion modules have none.
pub open spec fn spec_input(m: SpecModule) -> Option<Seq<char>> {
    match m {
        SpecModule::MessageIngestion { .. } => None,
        SpecModule::FileIngestion { .. } => None,
        SpecModule::Splitting { input, .. } => input,
        SpecModule::Reporting { input, .. } => input,
        SpecModule::Logic { input, .. } => input,
        SpecModule::Aggregation { input, .. } => input,
        SpecModule::Deduplication { input, .. } => input,
        SpecModule::Lookup { input, .. } => input,
    }
}

/// A copy of a vector of strings, element for element.
pub fn dup_strings(v: &Vec<String>) -> (r: Vec<String>)
    ensures
        strs_view(r@) == strs_view(v@),
        r@.len() == v@.len(),
{
    let mut r: Vec<String> = Vec::new();
    let mut i: usize = 0;
    while i < v.len()
        invariant
            i <= v@.len(),
            r@.len() == i,
            forall|k: int| 0 <= k < i ==> r@[k]@ == v@[k]@,
        decreases v@.len() - i,
    {
        r.push(v[i].clone());
        i += 1;
    }
    proof {
        assert(strs_view(r@) =~= strs_view(v@));
    }
    r
}

/// A copy of an optional string.
pub fn dup_opt_string(o: &Option<String>) -> (r: Option<String>)
    ensures
        opt_view(r) == opt_view(*o),
{
    match o {
        Some(s) => Some(s.clone()),
        None => None,
    }
}

impl Module {
    /// The module's unique name.
    pub fn name(&self) -> (r: &str)
        ensures
            r@ == spec_name(self@),
    {
        match self {
            Module::MessageIngestion { name, .. } => name.as_str(),
            Module::FileIngestion { name, .. } => name.as_str(),
            Module::Splitting { name, .. } => name.as_str(),
            Module::Reporting { name, .. } => name.as_str(),
            Module::Logic { name, .. } => name.as_str(),
            Module::Aggregation { name, .. } => name.as_str(),
            Module::Deduplication { name, .. } => name.as_str(),
            Module::Lookup { name, .. } => name.as_str(),
        }
    }

    /// The module's input reference, if it declares one.
    pub fn input(&self) -> (r: Option<&str>)
        ensures
            match r {
                Some(s) => spec_input(self@) == Some(s@),
                None => spec_input(self@) is None,
            },
    {
        match self {
            Module::MessageIngestion { .. } => None,
            Module::FileIngestion { .. } => None,
            Module::Splitting { input, .. } => match input {
                Some(s) => Some(s.as_str()),
                None => None,
            },
            Module::Reporting { input, .. } => match input {
                Some(s) => Some(s.as_str()),
                None => None,
            },
            Module::Logic { input, .. } => match input {
                Some(s) => Some(s.as_str()),
                None => None,
            },
            Module::Aggregation { input, .. } => match input {
                Some(s) => Some(s.as_str()),
                None => None,
            },
            Module::Deduplication { input, .. } => match input {
                Some(s) => Some(s.as_str()),
                None => None,
            },
            Module::Lookup { input, .. } => match input {
                Some(s) => Some(s.as_str()),
                None => None,
            },
        }
    }

    /// A value equal to `self` (a deep copy).
    pub fn duplicate(&self) -> (r: Module)
        ensures
            r@ == self@,
    {
        match self {
            Module::MessageIngestion { schema, name } => Module::MessageIngestion {
                schema: schema.duplicate(),
                name: name.clone(),
            },
            Module::FileIngestion { schema, name } => Module::FileIngestion {
                schema: schema.duplicate(),
                name: name.clone(),
            },
            Module::Splitting { array_path, allow_empty, name, input } => Module::Splitting {
                array_path: array_path.clone(),
                allow_empty: *allow_empty,
                name: name.clone(),
                input: dup_opt_string(input),
            },
            Module::Reporting { scheduling, format, name, input } => Module::Reporting {
                scheduling: *scheduling,
                format: format.clone(),
                name: name.clone(),
                input: dup_opt_string(input),
            },
            Module::Logic { rules, routes, name, input } => Module::Logic {
                rules: dup_strings(rules),
                routes: dup_strings(routes),
                name: name.clone(),
                input: dup_opt_string(input),
            },
            Module::Aggregation { key, name, input } => Module::Aggregation {
                key: dup_strings(key),
                name: name.clone(),
                input: dup_opt_string(input),
            },
            Module::Deduplication { key, name, input } => Module::Deduplication {
                key: dup_strings(key),
                name: name.clone(),
                input: dup_opt_string(input),
            },
            Module::Lookup { name, input } => Module::Lookup {
                name: name.clone(),
                input: dup_opt_string(input),
            },
        }
    }
}

/// View of a module list.
pub open spec fn mods_view(ms: Seq<Module>) -> Seq<SpecModule> {
    Seq::new(ms.len(), |i: int| ms[i]@)
}

/// The parsed contents of a playbook file.
#[derive(Debug)]
pub struct PlaybookData {
    pub bmp_version: String,
    pub flow: String,
    pub modules: Vec<Module>,
}

/// A playbook together with the root directory its scripts live under.
#[derive(Debug)]
pub struct Playbook {
    pub pb: PlaybookData,
    pub channel_root_path: String,
}

/// The rule files a module declares; only Logic modules declare any.
pub open spec fn spec_rules(m: SpecModule) -> Seq<Seq<char>> {
    match m {
        SpecModule::Logic { rules, .. } => rules,
        _ => Seq::empty(),
    }
}

/// `acc` extended with the entries of `xs` not yet in it, in order.
pub open spec fn dedup_add(acc: Seq<Seq<char>>, xs: Seq<Seq<char>>) -> Seq<Seq<char>>
    decreases xs.len(),
{
    if xs.len() == 0 {
        acc
    } else {
        dedup_add(
            if acc.contains(xs[0]) {
                acc
            } else {
                acc.push(xs[0])
            },
            xs.drop_first(),
        )
    }
}

/// The script files named by the Logic modules of a playbook, each once,
/// in order of first appearance.
pub open spec fn script_names_spec(mods: Seq<SpecModule>, acc: Seq<Seq<char>>) -> Seq<Seq<char>>
    decreases mods.len(),
{
    if mods.len() == 0 {
        acc
    } else {
        script_names_spec(mods.drop_first(), dedup_add(acc, spec_rules(mods[0])))
    }
}

/// Whether some entry of `v` equals `x`.
fn contains_str(v: &Vec<String>, x: &String) -> (r: bool)
    ensures
        r == strs_view(v@).contains(x@),
{
    let mut i: usize = 0;
    while i < v.len()
        invariant
            i <= v@.len(),
            forall|k: int| 0 <= k < i ==> strs_view(v@)[k] != x@,
        decreases v@.len() - i,
    {
        if v[i] == *x {
            proof {
                assert(strs_view(v@)[i as int] == x@);
            }
            return true;
        }
        i += 1;
    }
    proof {
        assert(!strs_view(v@).contains(x@)) by {
            if strs_view(v@).contains(x@) {
                let k = choose|k: int| 0 <= k < strs_view(v@).len() && strs_view(v@)[k] == x@;
            }
        }
    }
    false
}

/// The script files named by the Logic modules, deduplicated, in order of
/// first appearance.
pub fn script_names(mods: &Vec<Module>) -> (r: Vec<String>)
    ensures
        strs_view(r@) == script_names_spec(mods_view(mods@), Seq::empty()),
{
    let ghost mv = mods_view(mods@);
    let mut r: Vec<String> = Vec::new();
    proof {
        assert(strs_view(r@) =~= Seq::<Seq<char>>::empty());
        assert(mv.skip(0) =~= mv);
    }
    let mut i: usize = 0;
    while i < mods.len()
        invariant
            i <= mods@.len(),
            mv == mods_view(mods@),
            script_names_spec(mv, Seq::empty()) == script_names_spec(
                mv.skip(i as int),
                strs_view(r@),
            ),
        decreases mods@.len() - i,
    {
        let ghost acc_in = strs_view(r@);
        match &mods[i] {
            Module::Logic { rules, .. } => {
                let ghost rv = strs_view(rules@);
                proof {
                    assert(spec_rules(mv[i as int]) == rv);
                    assert(rv.skip(0) =~= rv);
                }
                let mut k: usize = 0;
                while k < rules.len()
                    invariant
                        k <= rules@.len(),
                        rv == strs_view(rules@),
                        dedup_add(acc_in, rv) == dedup_add(strs_view(r@), rv.skip(k as int)),
                    decreases rules@.len() - k,
                {
                    let ghost acc0 = strs_view(r@);
                    let present = contains_str(&r, &rules[k]);
                    if !present {
                        let s = rules[k].clone();
                        r.push(s);
                        proof {
                            assert(strs_view(r@) =~= acc0.push(rv[k as int]));
                        }
                    }
                    k += 1;
                    proof {
                        assert(rv.skip(k - 1)[0] == rv[k - 1]);
                        assert(rv.skip(k - 1).drop_first() =~= rv.skip(k as int));
                    }
                }
                proof {
                    assert(rv.skip(rules@.len() as int) =~= Seq::<Seq<char>>::empty());
                    assert(dedup_add(acc_in, rv) == strs_view(r@));
                }
            },
            _ => {
                proof {
                    assert(spec_rules(mv[i as int]) =~= Seq::<Seq<char>>::empty());
                    assert(dedup_add(acc_in, spec_rules(mv[i as int])) == acc_in);
                }
            },
        }
        i += 1;
        proof {
            assert(mv.skip(i - 1)[0] == mv[i - 1]);
            assert(mv.skip(i - 1).drop_first() =~= mv.skip(i as int));
        }
    }
    proof {
        assert(mv.skip(mods@.len() as int) =~= Seq::<SpecModule>::empty());
    }
    r
}

} // verus!
