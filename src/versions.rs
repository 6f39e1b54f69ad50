//! Versions of the host API features that plugins declare.
//!
//! A plugin lists the features it uses; the core warns whenever a plugin
//! reaches a feature it did not list. Versions are compared by equality.
use vstd::prelude::*;

verus! {

/// Name and version of a feature, as plain character sequences.
pub type FeatureView = (Seq<char>, Seq<char>);

/// The view of a list of declared features.
pub open spec fn features_view(fs: Seq<(String, String)>) -> Seq<FeatureView> {
    fs.map_values(|f: (String, String)| (f.0@, f.1@))
}

/// Viewing a list after a push is viewing it before, then pushing the view.
pub proof fn lemma_features_view_push(s: Seq<(String, String)>, x: (String, String))
    ensures
        features_view(s.push(x)) == features_view(s).push((x.0@, x.1@)),
{
    assert(features_view(s.push(x)) =~= features_view(s).push((x.0@, x.1@)));
}

/// Every feature this core offers, with its current version.
pub open spec fn supported_features_spec() -> Seq<FeatureView> {
    seq![
        ("compiler_version"@, "1.64"@),
        ("plugin_api"@, "0.2"@),
        ("sdmodule_trait"@, "0.2"@),
        ("core"@, "0.2"@),
        ("core_methods"@, "0.2"@),
        ("config"@, "0.2"@),
        ("module_manager"@, "0.2"@),
        ("core_events"@, "0.2"@),
        ("global_events"@, "0.1"@),
        ("rendering"@, "0.2"@),
        ("socket_api"@, "0.2"@),
    ]
}

fn feature(name: &str, version: &str) -> (r: (String, String))
    ensures
        r.0@ == name@,
        r.1@ == version@,
{
    (name.to_owned(), version.to_owned())
}

/// Builds the list of every supported feature, usable as the feature list of
/// a module that uses all of them.
pub fn supported_features() -> (r: Vec<(String, String)>)
    ensures
        features_view(r@) == supported_features_spec(),
{
    let mut v: Vec<(String, String)> = Vec::new();
    v.push(feature("compiler_version", "1.64"));
    v.push(feature("plugin_api", "0.2"));
    v.push(feature("sdmodule_trait", "0.2"));
    v.push(feature("core", "0.2"));
    v.push(feature("core_methods", "0.2"));
    v.push(feature("config", "0.2"));
    v.push(feature("module_manager", "0.2"));
    v.push(feature("core_events", "0.2"));
    v.push(feature("global_events", "0.1"));
    v.push(feature("rendering", "0.2"));
    v.push(feature("socket_api", "0.2"));
    assert(features_view(v@) =~= supported_features_spec());
    v
}

/// The version of the socket API that the daemon speaks.
pub fn socket_api_version() -> (r: String)
    ensures
        r@ == "0.2"@,
{
    "0.2".to_owned()
}

} // verus!
