use vstd::prelude::*;

use crate::errors::ConfigError;
use crate::json;
use crate::provider_map::{
    EntryMap, EntrySeq, ProviderMap, fold_pairs, key_in, last_value_of, lemma_fold_pairs_properties,
    map_of_seq,
};
use vstd::string::StringExecFns;

verus! {

/// The built-in default registry, shipped inside the binary: a JSON object
/// from `"<provider>/<model>"` keys to entry objects.
pub const BUILTIN_PROVIDERS: &'static str = "{\"builtin/demo\":{\"keys\":[\"demo-key\"],\"models\":[\"demo-model\"],\"base_url\":\"https://api.example.com/v1\"}}";

/// The text of the built-in registry, as the contracts speak of it.
pub open spec fn builtin_registry_text() -> Seq<char> {
    BUILTIN_PROVIDERS@
}

/// One discovered external source, already read: where it was found and
/// what it holds.
pub struct Source {
    pub path: String,
    pub content: String,
}

/// The mathematical value of a source: its path and content as character
/// sequences.
pub struct SourceView {
    pub path: Seq<char>,
    pub content: Seq<char>,
}

impl View for Source {
    type V = SourceView;

    open spec fn view(&self) -> SourceView {
        SourceView { path: self.path@, content: self.content@ }
    }
}

/// The sources of a list, as mathematical values.
pub open spec fn views_of(sources: Seq<Source>) -> Seq<SourceView> {
    sources.map_values(|s: Source| s@)
}

/// Whether a source text parses as a JSON object of entries.
pub open spec fn source_parses(content: Seq<char>) -> bool {
    json::json_entries(content) is Some
}

/// The entries a source text parses to, when it parses.
pub open spec fn parsed_entries(content: Seq<char>) -> EntrySeq {
    json::json_entries(content).unwrap()
}

/// Whether every source of the list parses.
pub open spec fn all_sources_parse(srcs: Seq<SourceView>) -> bool {
    forall|i: int| 0 <= i < srcs.len() ==> source_parses(srcs[i].content)
}

/// The merged configuration the sources denote: each one's entries folded
/// over an empty map, first to last, so a later source wins every tie.
pub open spec fn merged_of(srcs: Seq<SourceView>) -> EntryMap
    decreases srcs.len(),
{
    if srcs.len() == 0 {
        Map::empty()
    } else {
        fold_pairs(merged_of(srcs.drop_last()), parsed_entries(srcs.last().content))
    }
}

/// The registry the built-in text denotes.
pub open spec fn builtin_registry_map() -> EntryMap {
    map_of_seq(parsed_entries(builtin_registry_text()))
}

/// Source `i` is the first of the list that does not parse.
pub open spec fn first_parse_failure(srcs: Seq<SourceView>, i: int) -> bool {
    &&& 0 <= i < srcs.len()
    &&& !source_parses(srcs[i].content)
    &&& forall|j: int| 0 <= j < i ==> source_parses(srcs[j].content)
}

/// The view of an optional string.
pub open spec fn opt_view(o: Option<String>) -> Option<Seq<char>> {
    match o {
        Some(s) => Some(s@),
        None => None,
    }
}

/// The candidate locations to probe, weakest precedence first: the two
/// current-directory files, the platform config directory, the home
/// directory, and last — so that it wins every tie once folded — the path
/// named by the override environment variable.
pub open spec fn config_path_order(
    env_override: Option<Seq<char>>,
    config_dir: Option<Seq<char>>,
    home_dir: Option<Seq<char>>,
) -> Seq<Seq<char>> {
    let cwd = seq!["providers.json"@, "llmao.json"@];
    let with_cfg = if config_dir is Some {
        cwd.push(config_dir.unwrap() + "/llmao/providers.json"@)
    } else {
        cwd
    };
    let with_home = if home_dir is Some {
        with_cfg.push(home_dir.unwrap() + "/.llmao/providers.json"@)
    } else {
        with_cfg
    };
    if env_override is Some {
        with_home.push(env_override.unwrap())
    } else {
        with_home
    }
}

/// The layered configuration resolver: the immutable built-in registry
/// beside the configuration merged from the discovered external sources.
pub struct ConfigLoader {
    provider_registry: ProviderMap,
    config: ProviderMap,
}

impl ConfigLoader {
    /// The built-in registry, as a map.
    pub closed spec fn registry_view(&self) -> EntryMap {
        self.provider_registry@
    }

    /// The merged configuration, as a map.
    pub closed spec fn config_view(&self) -> EntryMap {
        self.config@
    }

    /// Both maps are well formed.
    pub closed spec fn wf(&self) -> bool {
        self.provider_registry.wf() && self.config.wf()
    }

    /// Parse the built-in registry shipped with the binary. Fails only when
    /// that embedded text is malformed, a build-time defect.
    fn load_provider_registry() -> (r: Result<ProviderMap, ConfigError>)
        ensures
            match r {
                Ok(m) => {
                    &&& source_parses(builtin_registry_text())
                    &&& m.wf()
                    &&& m@ == builtin_registry_map()
                },
                Err(e) => {
                    &&& !source_parses(builtin_registry_text())
                    &&& e is MalformedBuiltin
                },
            },
    {
        match json::parse_json_object(BUILTIN_PROVIDERS) {
            Ok(pairs) => {
                let mut m = ProviderMap::new();
                m.fold_in(pairs);
                Ok(m)
            },
            Err(e) => Err(
                ConfigError::MalformedBuiltin { cause: json::json_error_text(&e) },
            ),
        }
    }

    /// Parse one discovered source and fold its entries into the merged
    /// configuration, replacing any prior entry for each of its keys in
    /// full. On a parse failure nothing is folded and the loader is
    /// unchanged.
    fn fold_source(&mut self, source: &Source) -> (r: Result<(), ConfigError>)
        requires
            old(self).wf(),
        ensures
            final(self).wf(),
            final(self).registry_view() == old(self).registry_view(),
            match r {
                Ok(_) => {
                    &&& source_parses(source@.content)
                    &&& final(self).config_view() == fold_pairs(
                        old(self).config_view(),
                        parsed_entries(source@.content),
                    )
                },
                Err(e) => {
                    &&& !source_parses(source@.content)
                    &&& *final(self) == *old(self)
                    &&& match e {
                        ConfigError::SourceParse { path, .. } => path@ == source@.path,
                        _ => false,
                    }
                },
            },
    {
        match json::parse_json_object(source.content.as_str()) {
            Ok(pairs) => {
                self.config.fold_in(pairs);
                Ok(())
            },
            Err(e) => Err(
                ConfigError::SourceParse {
                    path: source.path.clone(),
                    cause: json::json_error_text(&e),
                },
            ),
        }
    }

    /// Build a loader: parse the built-in registry, then fold every given
    /// source — the discovered external sources, already read, in merge
    /// order, weakest precedence first — into an initially empty merged
    /// configuration. Construction is atomic: it yields the fully merged
    /// configuration, or the first error, and nothing in between.
    pub fn new(sources: Vec<Source>) -> (r: Result<ConfigLoader, ConfigError>)
        ensures
            match r {
                Ok(loader) => {
                    &&& loader.wf()
                    &&& source_parses(builtin_registry_text())
                    &&& all_sources_parse(views_of(sources@))
                    &&& loader.registry_view() == builtin_registry_map()
                    &&& loader.config_view() == merged_of(views_of(sources@))
                },
                Err(e) => match e {
                    ConfigError::MalformedBuiltin { .. } => !source_parses(
                        builtin_registry_text(),
                    ),
                    ConfigError::SourceParse { path, .. } => {
                        &&& source_parses(builtin_registry_text())
                        &&& exists|i: int|
                            first_parse_failure(views_of(sources@), i) && path@ == views_of(
                                sources@,
                            )[i].path
                    },
                    ConfigError::SourceRead { .. } => false,
                },
            },
    {
        let registry = match Self::load_provider_registry() {
            Ok(m) => m,
            Err(e) => {
                return Err(e);
            },
        };
        let mut loader = ConfigLoader { provider_registry: registry, config: ProviderMap::new() };
        let ghost views = views_of(sources@);
        let n = sources.len();
        let mut i: usize = 0;
        while i < n
            invariant
                i <= n,
                n == sources@.len(),
                views == views_of(sources@),
                loader.wf(),
                source_parses(builtin_registry_text()),
                loader.registry_view() == builtin_registry_map(),
                all_sources_parse(views.take(i as int)),
                loader.config_view() == merged_of(views.take(i as int)),
            decreases n - i,
        {
            proof {
                assert(views[i as int] == sources@[i as int]@);
            }
            match loader.fold_source(&sources[i]) {
                Ok(_) => {},
                Err(e) => {
                    proof {
                        assert forall|j: int| 0 <= j < i implies source_parses(views[j].content) by {
                            assert(views.take(i as int)[j] == views[j]);
                        }
                        assert(first_parse_failure(views, i as int));
                    }
                    return Err(e);
                },
            }
            proof {
                assert(views.take(i + 1 as int).drop_last() =~= views.take(i as int));
                assert(views.take(i + 1 as int).last() == views[i as int]);
                assert forall|j: int| 0 <= j < i + 1 implies source_parses(
                    (#[trigger] views.take(i + 1 as int)[j]).content,
                ) by {
                    assert(views.take(i + 1 as int)[j] == views[j]);
                    if j < i {
                        assert(views.take(i as int)[j] == views[j]);
                    }
                }
            }
            i = i + 1;
        }
        proof {
            assert(views.take(n as int) =~= views);
        }
        Ok(loader)
    }

    /// Build a loader from exactly one caller-named source, bypassing
    /// discovery: parse the built-in registry, then fold that source alone.
    /// The caller hands over the path, for attribution, and the content it
    /// read there.
    pub fn from_path(path: String, content: String) -> (r: Result<ConfigLoader, ConfigError>)
        ensures
            match r {
                Ok(loader) => {
                    &&& loader.wf()
                    &&& source_parses(builtin_registry_text())
                    &&& source_parses(content@)
                    &&& loader.registry_view() == builtin_registry_map()
                    &&& loader.config_view() == map_of_seq(parsed_entries(content@))
                },
                Err(e) => match e {
                    ConfigError::MalformedBuiltin { .. } => !source_parses(
                        builtin_registry_text(),
                    ),
                    ConfigError::SourceParse { path: failed, .. } => {
                        &&& source_parses(builtin_registry_text())
                        &&& !source_parses(content@)
                        &&& failed@ == path@
                    },
                    ConfigError::SourceRead { .. } => false,
                },
            },
    {
        let registry = match Self::load_provider_registry() {
            Ok(m) => m,
            Err(e) => {
                return Err(e);
            },
        };
        let mut loader = ConfigLoader { provider_registry: registry, config: ProviderMap::new() };
        let source = Source { path, content };
        match loader.fold_source(&source) {
            Ok(_) => Ok(loader),
            Err(e) => Err(e),
        }
    }

    /// The candidate locations to probe for external sources, weakest
    /// precedence first, built from the ambient values the caller looked
    /// up: the override environment variable, the platform config
    /// directory, and the home directory. A caller probes them in order,
    /// skips the missing ones, and folds the rest in this order, so the
    /// override path — pushed last — wins every tie.
    pub fn get_config_paths(
        env_override: Option<String>,
        config_dir: Option<String>,
        home_dir: Option<String>,
    ) -> (r: Vec<String>)
        ensures
            r@.map_values(|p: String| p@) == config_path_order(
                opt_view(env_override),
                opt_view(config_dir),
                opt_view(home_dir),
            ),
    {
        let ghost order = config_path_order(
            opt_view(env_override),
            opt_view(config_dir),
            opt_view(home_dir),
        );
        let mut paths: Vec<String> = Vec::new();
        paths.push("providers.json".to_owned());
        paths.push("llmao.json".to_owned());
        match config_dir {
            Some(d) => {
                paths.push(d.concat("/llmao/providers.json"));
            },
            None => {},
        }
        match home_dir {
            Some(d) => {
                paths.push(d.concat("/.llmao/providers.json"));
            },
            None => {},
        }
        match env_override {
            Some(p) => {
                paths.push(p);
            },
            None => {},
        }
        proof {
            assert(paths@.map_values(|p: String| p@) =~= order);
        }
        paths
    }

    /// The built-in registry, untouched by any merge.
    pub fn provider_registry(&self) -> (r: &ProviderMap)
        ensures
            r@ == self.registry_view(),
            self.wf() ==> r.wf(),
    {
        &self.provider_registry
    }

    /// The merged configuration.
    pub fn config(&self) -> (r: &ProviderMap)
        ensures
            r@ == self.config_view(),
            self.wf() ==> r.wf(),
    {
        &self.config
    }

    /// Consume the loader, handing the merged configuration to the caller.
    pub fn into_config(self) -> (r: ProviderMap)
        ensures
            r@ == self.config_view(),
            self.wf() ==> r.wf(),
    {
        self.config
    }

    /// Fold every entry of `other` into the merged configuration, each one
    /// replacing any prior entry for its key in full; the registry is
    /// untouched.
    pub fn merge_config(&mut self, other: ProviderMap)
        requires
            old(self).wf(),
        ensures
            final(self).wf(),
            final(self).registry_view() == old(self).registry_view(),
            final(self).config_view() == old(self).config_view().union_prefer_right(other@),
    {
        self.config.merge_from(&other);
    }
}

impl Default for ConfigLoader {
    /// The lossy fallback value a best-effort caller may fall back to when
    /// construction fails: a loader with nothing loaded at all.
    fn default() -> (r: ConfigLoader)
        ensures
            r.wf(),
            r.registry_view() == EntryMap::empty(),
            r.config_view() == EntryMap::empty(),
    {
        ConfigLoader { provider_registry: ProviderMap::new(), config: ProviderMap::new() }
    }
}

/// Override wins. When source `i` defines key `k` and no later source
/// does, the merged configuration holds for `k` exactly what source `i`
/// gives — whatever any earlier source, at any precedence level, said.
/// The environment-override source stands last, so when it defines `k` it
/// wins over every other source.
pub proof fn lemma_override_wins(srcs: Seq<SourceView>, i: int, k: Seq<char>)
    requires
        all_sources_parse(srcs),
        0 <= i < srcs.len(),
        key_in(parsed_entries(srcs[i].content), k),
        forall|j: int| i < j < srcs.len() ==> !key_in(parsed_entries(srcs[j].content), k),
    ensures
        merged_of(srcs).contains_key(k),
        merged_of(srcs)[k] == last_value_of(parsed_entries(srcs[i].content), k),
    decreases srcs.len(),
{
    let t = srcs.drop_last();
    lemma_fold_pairs_properties(merged_of(t), parsed_entries(srcs.last().content));
    if i < srcs.len() - 1 {
        assert(t[i] == srcs[i]);
        assert forall|j: int| 0 <= j < t.len() implies source_parses(t[j].content) by {
            assert(t[j] == srcs[j]);
        }
        assert forall|j: int| i < j < t.len() implies !key_in(
            parsed_entries(t[j].content),
            k,
        ) by {
            assert(t[j] == srcs[j]);
        }
        lemma_override_wins(t, i, k);
        assert(!key_in(parsed_entries(srcs.last().content), k));
    }
}

/// The environment override beats every other source: when the last-merged
/// source — the one the override variable names, per the discovery order —
/// defines key `k`, the merged configuration holds its entry for `k`,
/// whatever any source of any other precedence level says.
pub proof fn lemma_env_override_wins(srcs: Seq<SourceView>, k: Seq<char>)
    requires
        all_sources_parse(srcs),
        srcs.len() > 0,
        key_in(parsed_entries(srcs.last().content), k),
    ensures
        merged_of(srcs).contains_key(k),
        merged_of(srcs)[k] == last_value_of(parsed_entries(srcs.last().content), k),
{
    lemma_override_wins(srcs, srcs.len() - 1, k);
}

/// A missing source is not an error: with no sources discovered, every
/// fold is skipped and the merged configuration is empty, while the
/// registry stands apart; such a construction can fail only on a
/// malformed built-in registry.
pub proof fn lemma_no_sources_empty(srcs: Seq<SourceView>)
    requires
        srcs.len() == 0,
    ensures
        merged_of(srcs) == EntryMap::empty(),
        all_sources_parse(srcs),
{
}

/// Folding the same source twice in a row yields the same merged
/// configuration as folding it once.
pub proof fn lemma_refold_same_source(srcs: Seq<SourceView>, s: SourceView)
    ensures
        merged_of(srcs.push(s).push(s)) == merged_of(srcs.push(s)),
{
    let once = srcs.push(s);
    let twice = once.push(s);
    assert(twice.drop_last() =~= once);
    assert(once.drop_last() =~= srcs);
    assert(merged_of(twice) == fold_pairs(merged_of(once), parsed_entries(s.content)));
    assert(merged_of(once) == fold_pairs(merged_of(srcs), parsed_entries(s.content)));
    crate::provider_map::lemma_fold_idempotent(merged_of(srcs), parsed_entries(s.content));
}

} // verus!
