//! The request's parameters and a polyfill's configuration, as the selection
//! reads them.
use vstd::prelude::*;
use crate::flags::FlagSet;
use crate::strmap::StrMap;
use crate::text::{strs, opt_str};

verus! {

/// What a request asks for.
pub struct PolyfillParameters {
    /// The requested features, each with the flags given with it.
    pub features: StrMap<FlagSet>,
    /// Features that must not be served.
    pub excludes: Vec<String>,
    /// What to do for an unknown browser (`"polyfill"` or `"ignore"`).
    pub unknown: String,
    /// Whether the bundle is minified.
    pub minify: bool,
    /// A function to call once the bundle has run.
    pub callback: Option<String>,
}

/// The values of `PolyfillParameters` that selection reads.
pub struct ParametersView {
    pub features: Map<Seq<char>, Set<Seq<char>>>,
    pub excludes: Set<Seq<char>>,
    pub unknown: Seq<char>,
    pub minify: bool,
    pub callback: Option<Seq<char>>,
}

impl View for PolyfillParameters {
    type V = ParametersView;

    open spec fn view(&self) -> ParametersView {
        ParametersView {
            features: self.features@,
            excludes: strs(self.excludes@).to_set(),
            unknown: self.unknown@,
            minify: self.minify,
            callback: opt_str(self.callback),
        }
    }
}

/// The configuration (`meta.json`) of one polyfill.
pub struct PolyfillConfig {
    pub license: Option<String>,
    pub dependencies: Option<Vec<String>>,
    /// The version range of each browser family the polyfill is for.
    pub browsers: Option<StrMap<String>>,
    pub detect_source: Option<String>,
}

/// The values of `PolyfillConfig`.
pub struct ConfigView {
    pub license: Option<Seq<char>>,
    pub dependencies: Option<Seq<Seq<char>>>,
    pub browsers: Option<Map<Seq<char>, Seq<char>>>,
    pub detect_source: Option<Seq<char>>,
}

impl View for PolyfillConfig {
    type V = ConfigView;

    open spec fn view(&self) -> ConfigView {
        ConfigView {
            license: opt_str(self.license),
            dependencies: match self.dependencies {
                Some(d) => Some(strs(d@)),
                None => None,
            },
            browsers: match self.browsers {
                Some(b) => Some(b@),
                None => None,
            },
            detect_source: opt_str(self.detect_source),
        }
    }
}

} // verus!
