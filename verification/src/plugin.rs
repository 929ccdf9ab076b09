//! Which loader a plugin file needs, and the record of where each loaded
//! plugin came from.
use vstd::prelude::*;

use crate::text::{clone_string, push_str, string_of};

verus! {

/// Whether `path` ends with `.wasm`.
pub open spec fn wasm_path(path: Seq<char>) -> bool {
    path.len() >= 5 && path.subrange(path.len() - 5, path.len() as int) == ".wasm"@
}

/// Whether a plugin path points to a WebAssembly module (`.wasm`).
pub fn is_wasm_path(path: &str) -> (r: bool)
    ensures
        r == wasm_path(path@),
{
    let n = path.unicode_len();
    if n < 5 {
        return false;
    }
    let suffix = path.substring_char(n - 5, n);
    crate::text::str_eq(suffix, ".wasm")
}

/// The two kinds of plugin files.
#[derive(Debug, Clone, Copy, PartialEq, Eq, Structural)]
pub enum PluginFormat {
    /// A native shared library (`.so`, `.dylib`).
    Native,
    /// A WebAssembly module (`.wasm`).
    Wasm,
}

/// The format that a plugin path calls for.
pub open spec fn format_of(path: Seq<char>) -> PluginFormat {
    if wasm_path(path) {
        PluginFormat::Wasm
    } else {
        PluginFormat::Native
    }
}

/// How a plugin's source is listed: its path, marked when it is WebAssembly.
pub open spec fn source_label(path: Seq<char>, format: PluginFormat) -> Seq<char> {
    match format {
        PluginFormat::Native => path,
        PluginFormat::Wasm => path + " (wasm)"@,
    }
}

/// The block type and source of every plugin loaded so far, in load order.
#[derive(Debug)]
pub struct PluginSources {
    entries: Vec<(String, String)>,
}

impl PluginSources {
    /// The recorded pairs: block type name and source.
    pub closed spec fn pairs(self) -> Seq<(Seq<char>, Seq<char>)> {
        Seq::new(self.entries@.len(), |i: int| (self.entries@[i].0@, self.entries@[i].1@))
    }

    /// No plugin recorded.
    pub fn new() -> (r: Self)
        ensures
            r.pairs() == Seq::<(Seq<char>, Seq<char>)>::empty(),
    {
        let r = PluginSources { entries: Vec::new() };
        assert(r.pairs() =~= Seq::<(Seq<char>, Seq<char>)>::empty());
        r
    }

    /// Records that block type `name` was loaded from `path`.
    pub fn record(&mut self, name: &str, path: &str, format: PluginFormat)
        ensures
            final(self).pairs() == old(self).pairs().push((name@, source_label(path@, format))),
    {
        let mut label = string_of(path);
        match format {
            PluginFormat::Native => {},
            PluginFormat::Wasm => {
                push_str(&mut label, " (wasm)");
            },
        }
        let ghost lv = label@;
        self.entries.push((string_of(name), label));
        assert(self.pairs() =~= old(self).pairs().push((name@, lv)));
    }
}

/// All loaded plugins as `(block type, source)` pairs, in load order.
pub fn all_dynamic_plugins(sources: &PluginSources) -> (r: Vec<(String, String)>)
    ensures
        r@.len() == sources.pairs().len(),
        forall|i: int|
            0 <= i < r@.len() ==> (#[trigger] r@[i]).0@ == sources.pairs()[i].0 && r@[i].1@
                == sources.pairs()[i].1,
{
    let mut out: Vec<(String, String)> = Vec::new();
    let mut i: usize = 0;
    while i < sources.entries.len()
        invariant
            i <= sources.entries@.len(),
            out@.len() == i,
            forall|j: int|
                0 <= j < i ==> (#[trigger] out@[j]).0@ == sources.pairs()[j].0 && out@[j].1@
                    == sources.pairs()[j].1,
        decreases sources.entries@.len() - i,
    {
        let e = &sources.entries[i];
        out.push((clone_string(&e.0), clone_string(&e.1)));
        i = i + 1;
    }
    out
}

/// The recorded plugins after loading from `path` gave `r`: on success the
/// block type and the path's source label are added at the end; on failure
/// nothing changes.
pub open spec fn plugin_step(
    before: Seq<(Seq<char>, Seq<char>)>,
    after: Seq<(Seq<char>, Seq<char>)>,
    path: Seq<char>,
    r: Result<String, String>,
) -> bool {
    match r {
        Ok(name) => after == before.push((name@, source_label(path, format_of(path)))),
        Err(_) => after == before,
    }
}

/// The plugins that loads from `paths` with results `results` record, in
/// order: the successful ones.
pub open spec fn loaded_plugins(paths: Seq<Seq<char>>, results: Seq<Result<String, String>>) -> Seq<(Seq<char>, Seq<char>)>
    decreases paths.len(),
{
    if paths.len() == 0 || results.len() == 0 {
        Seq::empty()
    } else {
        let rest = loaded_plugins(paths.drop_last(), results.drop_last());
        match results.last() {
            Ok(name) => rest.push((name@, source_label(paths.last(), format_of(paths.last())))),
            Err(_) => rest,
        }
    }
}

/// Over a run of loads, the plugin list grows by exactly the successful
/// loads, in call order; failed loads leave it as it was.
pub proof fn law_plugin_list(
    states: Seq<Seq<(Seq<char>, Seq<char>)>>,
    paths: Seq<Seq<char>>,
    results: Seq<Result<String, String>>,
)
    requires
        states.len() == paths.len() + 1,
        results.len() == paths.len(),
        forall|i: int| 0 <= i < paths.len() ==> plugin_step(states[i], states[i + 1], #[trigger] paths[i], results[i]),
    ensures
        states.last() == states[0] + loaded_plugins(paths, results),
    decreases paths.len(),
{
    if paths.len() == 0 {
        assert(states[0] + loaded_plugins(paths, results) =~= states[0]);
    } else {
        let n = paths.len() - 1;
        assert forall|i: int| 0 <= i < paths.drop_last().len() implies plugin_step(
            states.drop_last()[i],
            states.drop_last()[i + 1],
            #[trigger] paths.drop_last()[i],
            results.drop_last()[i],
        ) by {
            assert(plugin_step(states[i], states[i + 1], paths[i], results[i]));
        }
        law_plugin_list(states.drop_last(), paths.drop_last(), results.drop_last());
        assert(plugin_step(states[n], states[n + 1], paths[n], results[n]));
        match results.last() {
            Ok(name) => {
                assert(states.last() =~= states[0] + loaded_plugins(paths, results));
            },
            Err(_) => {},
        }
    }
}

/// Loads the plugin at `path` with the loader its extension calls for and,
/// when that succeeds, records the block type it registered together with
/// the path; the loader's result is returned as it came.
pub fn register_plugin_from_path<F>(path: &str, sources: &mut PluginSources, load: F) -> (r: Result<String, String>) where
    F: FnOnce(PluginFormat, &str) -> Result<String, String>,

    requires
        call_requires(load, (format_of(path@), path)),
    ensures
        call_ensures(load, (format_of(path@), path), r),
        plugin_step(old(sources).pairs(), final(sources).pairs(), path@, r),
{
    let format = if is_wasm_path(path) {
        PluginFormat::Wasm
    } else {
        PluginFormat::Native
    };
    let r = load(format, path);
    match &r {
        Ok(name) => {
            sources.record(name.as_str(), path, format);
        },
        Err(_) => {},
    }
    r
}

} // verus!
