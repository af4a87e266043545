//! The keys under which the polyfill store keeps its files, and the retry
//! rules for reading a polyfill's source.
use vstd::prelude::*;

verus! {

/// The key of the alias table.
pub open spec fn aliases_key_spec() -> Seq<char> {
    "/aliases.json"@
}

/// The key of a polyfill's configuration: `/{name}/meta.json`.
pub open spec fn meta_key_spec(name: Seq<char>) -> Seq<char> {
    "/"@ + name + "/meta.json"@
}

/// The key of a polyfill's source in a format: `/{name}/{format}.js`.
pub open spec fn source_key_spec(name: Seq<char>, format: Seq<char>) -> Seq<char> {
    "/"@ + name + "/"@ + format + ".js"@
}

/// Where to read the aliases of `name`: nowhere for the empty name, else
/// the alias table.
pub fn aliases_key(name: &String) -> (key: Option<String>)
    ensures
        name@.len() == 0 ==> key is None,
        name@.len() > 0 ==> key is Some && key->0@ == aliases_key_spec(),
{
    if name.as_str().is_empty() {
        None
    } else {
        Some(String::from_str("/aliases.json"))
    }
}

/// Where to read the configuration of `name`: nowhere for the empty name.
pub fn meta_key(name: &String) -> (key: Option<String>)
    ensures
        name@.len() == 0 ==> key is None,
        name@.len() > 0 ==> key is Some && key->0@ == meta_key_spec(name@),
{
    if name.as_str().is_empty() {
        None
    } else {
        let mut k = String::from_str("/");
        k.append(name.as_str());
        k.append("/meta.json");
        Some(k)
    }
}

/// Where to read the source of `name` in `format`.
pub fn source_key(name: &String, format: &String) -> (key: String)
    ensures
        key@ == source_key_spec(name@, format@),
{
    let mut k = String::from_str("/");
    k.append(name.as_str());
    k.append("/");
    k.append(format.as_str());
    k.append(".js");
    k
}

/// How many times a failing read of a source is tried.
pub const SOURCE_ATTEMPTS: u32 = 100;

/// The other format of a source: `min` for `raw`, `raw` for anything else.
pub open spec fn other_format_spec(format: Seq<char>) -> Seq<char> {
    if format == "raw"@ {
        "min"@
    } else {
        "raw"@
    }
}

/// The other format of a source.
pub fn other_format(format: &String) -> (r: String)
    ensures
        r@ == other_format_spec(format@),
{
    let raw = String::from_str("raw");
    if *format == raw {
        String::from_str("min")
    } else {
        raw
    }
}

/// The state of reading one polyfill's source.
pub struct SourceFetchView {
    pub feature: Seq<char>,
    pub format: Seq<char>,
    /// Failed reads in the current format.
    pub failures: nat,
}

/// What to do next while reading a source.
pub enum FetchActionView {
    /// Read this key.
    Read(Seq<char>),
    /// Stop: the reads kept failing.
    GiveUp,
}

/// The outcome of a read.
#[derive(Debug)]
pub enum ReadOutcome {
    /// The store has the key.
    Found,
    /// The store has no such key.
    Missing,
    /// The read failed.
    Failed,
}

/// The state and action after a read: a key that is missing is read in the
/// other format, with a fresh count of failures; a failed read is tried
/// again until it has failed `SOURCE_ATTEMPTS` times.
pub open spec fn fetch_step(s: SourceFetchView, outcome: ReadOutcome) -> (SourceFetchView, Option<FetchActionView>) {
    match outcome {
        ReadOutcome::Found => (s, None),
        ReadOutcome::Missing => {
            let t = SourceFetchView { format: other_format_spec(s.format), failures: 0, ..s };
            (t, Some(FetchActionView::Read(source_key_spec(t.feature, t.format))))
        },
        ReadOutcome::Failed => {
            let t = SourceFetchView { failures: s.failures + 1, ..s };
            if t.failures < SOURCE_ATTEMPTS {
                (t, Some(FetchActionView::Read(source_key_spec(t.feature, t.format))))
            } else {
                (t, Some(FetchActionView::GiveUp))
            }
        },
    }
}

/// Reading one polyfill's source.
pub struct SourceFetch {
    feature: String,
    format: String,
    failures: u32,
}

/// What to do next while reading a source.
#[derive(Debug)]
pub enum FetchAction {
    Read(String),
    GiveUp,
}

impl View for FetchAction {
    type V = FetchActionView;

    open spec fn view(&self) -> FetchActionView {
        match self {
            FetchAction::Read(k) => FetchActionView::Read(k@),
            FetchAction::GiveUp => FetchActionView::GiveUp,
        }
    }
}

impl View for SourceFetch {
    type V = SourceFetchView;

    closed spec fn view(&self) -> SourceFetchView {
        SourceFetchView { feature: self.feature@, format: self.format@, failures: self.failures as nat }
    }
}

impl SourceFetch {
    /// Whether reading may go on: fewer failures than the limit.
    pub open spec fn wf(&self) -> bool {
        self@.failures < SOURCE_ATTEMPTS
    }

    /// Starts reading the source of `feature` in `format`: read its key.
    pub fn start(feature: &String, format: &String) -> (r: (SourceFetch, String))
        ensures
            r.0.wf(),
            r.0@ == (SourceFetchView { feature: feature@, format: format@, failures: 0 }),
            r.1@ == source_key_spec(feature@, format@),
    {
        let f = SourceFetch { feature: feature.clone(), format: format.clone(), failures: 0 };
        let key = source_key(feature, format);
        (f, key)
    }

    /// The format being read.
    pub fn format(&self) -> (r: String)
        ensures
            r@ == self@.format,
    {
        self.format.clone()
    }

    /// How many reads in the current format failed.
    pub fn failures(&self) -> (r: u32)
        ensures
            r == self@.failures,
    {
        self.failures
    }

    /// Takes in the outcome of a read; returns what to do next, or `None`
    /// once the source is found.
    pub fn on_read(&mut self, outcome: ReadOutcome) -> (r: Option<FetchAction>)
        requires
            old(self).wf(),
        ensures
            r matches Some(FetchAction::Read(_)) ==> final(self).wf(),
            (final(self)@, match r {
                Some(a) => Some(a@),
                None => None,
            }) == fetch_step(old(self)@, outcome),
    {
        match outcome {
            ReadOutcome::Found => None,
            ReadOutcome::Missing => {
                self.format = other_format(&self.format);
                self.failures = 0;
                Some(FetchAction::Read(source_key(&self.feature, &self.format)))
            },
            ReadOutcome::Failed => {
                self.failures = self.failures + 1;
                if self.failures < SOURCE_ATTEMPTS {
                    Some(FetchAction::Read(source_key(&self.feature, &self.format)))
                } else {
                    Some(FetchAction::GiveUp)
                }
            },
        }
    }
}

} // verus!
