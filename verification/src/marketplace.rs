//! The managed plugin marketplaces: what a catalog must say, which plugin
//! manifests it points to, and the setting that points the isolated server at
//! the personal one.
use vstd::prelude::*;

use vstd::utf8::encode_utf8;

use crate::text::{
    lemma_text_le_connected, lemma_text_le_reflexive, lemma_text_le_transitive,
    lemma_text_order_is_total, sorted_texts, text_le, text_le_exec, text_order, texts_of,
};
use crate::json::{
    json_array, json_get, json_path, json_str, parse_json, parsed_json, path_view, quote_json,
    quoted_json, str_eq, JsonValue,
};

verus! {

/// A plugin a catalog lists: its name and its source path.
#[derive(Debug)]
pub struct CatalogPlugin {
    pub name: String,
    pub source: String,
}

/// Why a catalog was refused.
#[derive(Debug)]
pub enum MarketplaceError {
    /// The catalog is not JSON.
    InvalidCatalog,
    /// The catalog does not carry the expected name.
    WrongName(String),
    /// The catalog has no `plugins` array.
    NoPlugins,
    /// A plugin has no name.
    MissingName,
    /// The named plugin has no `source.path`.
    MissingSource(String),
    /// The bundled marketplace lacks the computer-use plugin.
    ComputerUseMissing,
}

/// The text of a refusal; the catalog's path, where a message names it, is
/// added by the caller.
pub open spec fn error_text(e: MarketplaceError) -> Seq<char> {
    match e {
        MarketplaceError::InvalidCatalog => "managed personal marketplace catalog is invalid"@,
        MarketplaceError::WrongName(n) => "managed marketplace must be named "@ + n@,
        MarketplaceError::NoPlugins => "managed personal marketplace has no plugins"@,
        MarketplaceError::MissingName => "managed personal marketplace plugin is missing name"@,
        MarketplaceError::MissingSource(n) => "managed personal marketplace plugin "@ + n@
            + " is missing source.path"@,
        MarketplaceError::ComputerUseMissing => "installed unified-computer-use plugin is unavailable"@,
    }
}

impl MarketplaceError {
    /// The human-readable description of the refusal.
    pub fn message(&self) -> (s: String)
        ensures
            s@ == error_text(*self),
    {
        match self {
            MarketplaceError::InvalidCatalog => String::from_str(
                "managed personal marketplace catalog is invalid",
            ),
            MarketplaceError::WrongName(n) => {
                let mut s = String::from_str("managed marketplace must be named ");
                s.append(n.as_str());
                s
            },
            MarketplaceError::NoPlugins => String::from_str("managed personal marketplace has no plugins"),
            MarketplaceError::MissingName => String::from_str(
                "managed personal marketplace plugin is missing name",
            ),
            MarketplaceError::MissingSource(n) => {
                let mut s = String::from_str("managed personal marketplace plugin ");
                s.append(n.as_str());
                s.append(" is missing source.path");
                s
            },
            MarketplaceError::ComputerUseMissing => String::from_str(
                "installed unified-computer-use plugin is unavailable",
            ),
        }
    }
}

/// The plugins a catalog lists, in order, up to the first malformed entry, and
/// the refusal that entry causes, if any. Each listed plugin's manifest must
/// then exist, in order, before that refusal applies.
#[derive(Debug)]
pub struct CatalogPlan {
    pub plugins: Vec<CatalogPlugin>,
    pub malformed: Option<MarketplaceError>,
}

/// The view of a malformed entry's refusal.
pub enum Malformed {
    MissingName,
    MissingSource(Seq<char>),
}

/// The name and source path of each plugin entry from the front of `items`,
/// up to the first one lacking either, and what it lacks.
pub open spec fn plugin_entries(items: Seq<JsonValue>) -> (Seq<(Seq<char>, Seq<char>)>, Option<Malformed>)
    decreases items.len(),
{
    if items.len() == 0 {
        (Seq::empty(), None)
    } else {
        match json_str(json_get(items[0], "name"@)) {
            None => (Seq::empty(), Some(Malformed::MissingName)),
            Some(n) => match json_str(json_path(items[0], seq!["source"@, "path"@])) {
                None => (Seq::empty(), Some(Malformed::MissingSource(n))),
                Some(p) => {
                    let rest = plugin_entries(items.drop_first());
                    (seq![(n, p)] + rest.0, rest.1)
                },
            },
        }
    }
}

/// The view of a refusal in a plan.
pub open spec fn malformed_view(e: Option<MarketplaceError>) -> Option<Malformed> {
    match e {
        Some(MarketplaceError::MissingName) => Some(Malformed::MissingName),
        Some(MarketplaceError::MissingSource(n)) => Some(Malformed::MissingSource(n@)),
        _ => None,
    }
}

/// The names and sources of a plan's plugins.
pub open spec fn plugins_view(p: Seq<CatalogPlugin>) -> Seq<(Seq<char>, Seq<char>)> {
    p.map_values(|c: CatalogPlugin| (c.name@, c.source@))
}

/// How a catalog document is judged: it must parse, carry `expected` as its
/// name and hold a `plugins` array; the plan lists that array's entries.
pub open spec fn catalog_verdict(catalog: Seq<u8>, expected: Seq<char>) -> Option<(Seq<(Seq<char>, Seq<char>)>, Option<Malformed>)> {
    match parsed_json(catalog) {
        None => None,
        Some(v) => if json_str(json_get(v, "name"@)) != Some(expected) {
            None
        } else {
            match json_array(json_get(v, "plugins"@)) {
                None => None,
                Some(items) => Some(plugin_entries(items)),
            }
        },
    }
}

/// The refusal of a catalog that does not parse, is misnamed or lists no
/// plugins.
pub open spec fn catalog_refusal(catalog: Seq<u8>, expected: Seq<char>, e: MarketplaceError) -> bool {
    match parsed_json(catalog) {
        None => e is InvalidCatalog,
        Some(v) => if json_str(json_get(v, "name"@)) != Some(expected) {
            e matches MarketplaceError::WrongName(n) && n@ == expected
        } else {
            e is NoPlugins
        },
    }
}

/// Reads a marketplace catalog named `expected_name` and plans the check of
/// its plugins' manifests.
pub fn validate_named_marketplace(catalog: &[u8], expected_name: &str) -> (r: Result<
    CatalogPlan,
    MarketplaceError,
>)
    ensures
        r is Ok <==> catalog_verdict(catalog@, expected_name@) is Some,
        r matches Ok(plan) ==> catalog_verdict(catalog@, expected_name@) == Some(
            (plugins_view(plan.plugins@), malformed_view(plan.malformed)),
        ),
        r matches Ok(plan) ==> (plan.malformed matches Some(e) ==> (e is MissingName || e is MissingSource)),
        r matches Err(e) ==> catalog_refusal(catalog@, expected_name@, e),
{
    proof {
        reveal_strlit("name");
        reveal_strlit("plugins");
        reveal_strlit("source");
        reveal_strlit("path");
    }
    let v = match parse_json(catalog) {
        Some(v) => v,
        None => {
            return Err(MarketplaceError::InvalidCatalog);
        },
    };
    let named = match v.get("name") {
        Some(n) => match n.as_str() {
            Some(t) => str_eq(t.as_str(), expected_name),
            None => false,
        },
        None => false,
    };
    if !named {
        return Err(MarketplaceError::WrongName(expected_name.to_owned()));
    }
    let items = match v.get("plugins") {
        Some(p) => match p.as_array() {
            Some(items) => items,
            None => {
                return Err(MarketplaceError::NoPlugins);
            },
        },
        None => {
            return Err(MarketplaceError::NoPlugins);
        },
    };
    let path: [&str; 2] = ["source", "path"];
    assert(path_view(path@) =~= seq!["source"@, "path"@]);
    let mut plugins: Vec<CatalogPlugin> = Vec::new();
    let mut i: usize = 0;
    assert(plugins_view(plugins@) + plugin_entries(items@.skip(0)).0 =~= plugin_entries(items@).0) by {
        assert(items@.skip(0) =~= items@);
    }
    assert(items@.skip(0) =~= items@);
    while i < items.len()
        invariant
            i <= items.len(),
            parsed_json(catalog@) == Some(v),
            json_str(json_get(v, "name"@)) == Some(expected_name@),
            json_array(json_get(v, "plugins"@)) == Some(items@),
            path_view(path@) == seq!["source"@, "path"@],
            plugins_view(plugins@) + plugin_entries(items@.skip(i as int)).0 == plugin_entries(items@).0,
            plugin_entries(items@.skip(i as int)).1 == plugin_entries(items@).1,
        decreases items.len() - i,
    {
        let ghost rest = items@.skip(i as int);
        assert(rest[0] == items@[i as int]);
        assert(rest.drop_first() =~= items@.skip(i + 1));
        let name = match items[i].get("name") {
            Some(n) => match n.as_str() {
                Some(t) => t.clone(),
                None => {
                    assert(plugins_view(plugins@) + Seq::empty() =~= plugins_view(plugins@));
                    return Ok(CatalogPlan { plugins, malformed: Some(MarketplaceError::MissingName) });
                },
            },
            None => {
                assert(plugins_view(plugins@) + Seq::empty() =~= plugins_view(plugins@));
                return Ok(CatalogPlan { plugins, malformed: Some(MarketplaceError::MissingName) });
            },
        };
        let source = match items[i].str_at(path.as_slice()) {
            Some(t) => t.clone(),
            None => {
                assert(plugins_view(plugins@) + Seq::empty() =~= plugins_view(plugins@));
                return Ok(CatalogPlan { plugins, malformed: Some(MarketplaceError::MissingSource(name)) });
            },
        };
        let ghost before = plugins_view(plugins@);
        plugins.push(CatalogPlugin { name, source });
        assert(plugins_view(plugins@) =~= before.push((name@, source@)));
        assert(before + plugin_entries(rest).0 =~= plugins_view(plugins@) + plugin_entries(
            items@.skip(i + 1),
        ).0);
        i = i + 1;
    }
    assert(items@.skip(i as int) =~= Seq::<JsonValue>::empty());
    assert(plugins_view(plugins@) + Seq::empty() =~= plugins_view(plugins@));
    Ok(CatalogPlan { plugins, malformed: None })
}

/// Reads the personal marketplace's catalog and plans the check of its
/// plugins' manifests.
pub fn validate_marketplace(catalog: &[u8]) -> (r: Result<CatalogPlan, MarketplaceError>)
    ensures
        r is Ok <==> catalog_verdict(catalog@, "personal"@) is Some,
        r matches Ok(plan) ==> catalog_verdict(catalog@, "personal"@) == Some(
            (plugins_view(plan.plugins@), malformed_view(plan.malformed)),
        ),
        r matches Ok(plan) ==> (plan.malformed matches Some(e) ==> (e is MissingName || e is MissingSource)),
        r matches Err(e) ==> catalog_refusal(catalog@, "personal"@, e),
{
    validate_named_marketplace(catalog, "personal")
}

/// The isolated server's setting for the personal marketplace at `root`.
pub open spec fn override_text(root: Seq<char>) -> Seq<char> {
    "marketplaces.personal.source="@ + quoted_json(root)
}

/// The isolated server's setting for the personal marketplace at `root`, the
/// path quoted as a JSON string.
pub fn config_override(root: &str) -> (r: String)
    ensures
        r@ == override_text(root@),
{
    let mut s = String::from_str("marketplaces.personal.source=");
    let q = quote_json(root);
    s.append(q.as_str());
    s
}

/// A generated catalog of the bundled marketplace must offer the computer-use
/// plugin; the personal one may offer anything.
pub open spec fn offers_required(marketplace: Seq<char>, names: Seq<Seq<char>>) -> bool {
    marketplace != "openai-bundled"@ || names.contains("unified-computer-use"@)
}

/// Checks that a catalog about to be generated for `marketplace` offers what
/// it must.
pub fn check_offered(marketplace: &str, names: &Vec<String>) -> (r: Result<(), MarketplaceError>)
    ensures
        r is Ok <==> offers_required(marketplace@, names@.map_values(|s: String| s@)),
        r matches Err(e) ==> e is ComputerUseMissing,
{
    let ghost view = names@.map_values(|s: String| s@);
    if !str_eq(marketplace, "openai-bundled") {
        return Ok(());
    }
    let mut i: usize = 0;
    while i < names.len()
        invariant
            i <= names.len(),
            view == names@.map_values(|s: String| s@),
            forall|j: int| 0 <= j < i ==> view[j] != "unified-computer-use"@,
        decreases names.len() - i,
    {
        if str_eq(names[i].as_str(), "unified-computer-use") {
            assert(view[i as int] == "unified-computer-use"@);
            return Ok(());
        }
        i = i + 1;
    }
    assert(!view.contains("unified-computer-use"@));
    Err(MarketplaceError::ComputerUseMissing)
}

/// The names of plugin entries from the front of `items`, up to the first
/// without one, and whether there is such an entry.
pub open spec fn listed_names(items: Seq<JsonValue>) -> (Seq<Seq<char>>, bool)
    decreases items.len(),
{
    if items.len() == 0 {
        (Seq::empty(), false)
    } else {
        match json_str(json_get(items[0], "name"@)) {
            None => (Seq::empty(), true),
            Some(n) => {
                let rest = listed_names(items.drop_first());
                (seq![n] + rest.0, rest.1)
            },
        }
    }
}

/// The plugins to relink from a catalog: their names in order, up to an entry
/// without a name, and whether there was one.
#[derive(Debug)]
pub struct RelinkPlan {
    pub names: Vec<String>,
    pub unnamed: bool,
}

/// Why a catalog could not be read for relinking.
#[derive(Clone, Copy, Debug, PartialEq, Eq, Structural)]
pub enum RelinkError {
    /// The catalog is not JSON.
    Invalid,
    /// The catalog has no `plugins` array.
    NoPlugins,
}

/// The relinking plan of a catalog document.
pub open spec fn relink_verdict(catalog: Seq<u8>) -> Result<(Seq<Seq<char>>, bool), RelinkError> {
    match parsed_json(catalog) {
        None => Err(RelinkError::Invalid),
        Some(v) => match json_array(json_get(v, "plugins"@)) {
            None => Err(RelinkError::NoPlugins),
            Some(items) => Ok(listed_names(items)),
        },
    }
}

/// Reads which plugins a catalog lists, for relinking their newest installed
/// versions.
pub fn relink_plan(catalog: &[u8]) -> (r: Result<RelinkPlan, RelinkError>)
    ensures
        match relink_verdict(catalog@) {
            Ok((names, unnamed)) => r matches Ok(plan) && plan.names@.map_values(|s: String| s@)
                == names && plan.unnamed == unnamed,
            Err(e) => r == Err::<RelinkPlan, RelinkError>(e),
        },
{
    proof {
        reveal_strlit("name");
        reveal_strlit("plugins");
    }
    let v = match parse_json(catalog) {
        Some(v) => v,
        None => {
            return Err(RelinkError::Invalid);
        },
    };
    let items = match v.get("plugins") {
        Some(p) => match p.as_array() {
            Some(items) => items,
            None => {
                return Err(RelinkError::NoPlugins);
            },
        },
        None => {
            return Err(RelinkError::NoPlugins);
        },
    };
    let mut names: Vec<String> = Vec::new();
    let mut i: usize = 0;
    assert(items@.skip(0) =~= items@);
    assert(names@.map_values(|s: String| s@) + listed_names(items@).0 =~= listed_names(items@).0);
    while i < items.len()
        invariant
            i <= items.len(),
            parsed_json(catalog@) == Some(v),
            json_array(json_get(v, "plugins"@)) == Some(items@),
            names@.map_values(|s: String| s@) + listed_names(items@.skip(i as int)).0 == listed_names(
                items@,
            ).0,
            listed_names(items@.skip(i as int)).1 == listed_names(items@).1,
        decreases items.len() - i,
    {
        let ghost rest = items@.skip(i as int);
        assert(rest[0] == items@[i as int]);
        assert(rest.drop_first() =~= items@.skip(i + 1));
        let name = match items[i].get("name") {
            Some(n) => match n.as_str() {
                Some(t) => t.clone(),
                None => {
                    assert(names@.map_values(|s: String| s@) + Seq::empty() =~= names@.map_values(
                        |s: String| s@,
                    ));
                    return Ok(RelinkPlan { names, unnamed: true });
                },
            },
            None => {
                assert(names@.map_values(|s: String| s@) + Seq::empty() =~= names@.map_values(
                    |s: String| s@,
                ));
                return Ok(RelinkPlan { names, unnamed: true });
            },
        };
        let ghost before = names@.map_values(|s: String| s@);
        names.push(name);
        assert(names@.map_values(|s: String| s@) =~= before.push(name@));
        assert(before + listed_names(rest).0 =~= names@.map_values(|s: String| s@) + listed_names(
            items@.skip(i + 1),
        ).0);
        i = i + 1;
    }
    assert(items@.skip(i as int) =~= Seq::<JsonValue>::empty());
    assert(names@.map_values(|s: String| s@) + Seq::empty() =~= names@.map_values(|s: String| s@));
    Ok(RelinkPlan { names, unnamed: false })
}


/// The catalog entry of the installed plugin `n`, as a pretty-printed JSON
/// object at the depth of the `plugins` array: its name, its source under
/// `./plugins/`, and the policy that makes it available and authenticated on
/// use. Keys are in sorted order.
pub open spec fn plugin_entry_text(n: Seq<char>) -> Seq<char> {
    "    {\n      \"name\": "@ + quoted_json(n)
        + ",\n      \"policy\": {\n        \"authentication\": \"ON_USE\",\n        \"installation\": \"AVAILABLE\"\n      },\n      \"source\": {\n        \"path\": "@
        + quoted_json("./plugins/"@ + n) + ",\n        \"source\": \"local\"\n      }\n    }"@
}

/// The entries of `ns`, one after another, separated by commas.
pub open spec fn plugin_list_text(ns: Seq<Seq<char>>) -> Seq<char>
    decreases ns.len(),
{
    if ns.len() == 0 {
        Seq::empty()
    } else if ns.len() == 1 {
        plugin_entry_text(ns[0])
    } else {
        plugin_list_text(ns.drop_last()) + ",\n"@ + plugin_entry_text(ns.last())
    }
}

/// The generated catalog of marketplace `name` offering the plugins `ns`, in
/// that order: pretty-printed JSON with sorted keys, its display name being
/// its name.
pub open spec fn catalog_text(name: Seq<char>, ns: Seq<Seq<char>>) -> Seq<char> {
    "{\n  \"interface\": {\n    \"displayName\": "@ + quoted_json(name) + "\n  },\n  \"name\": "@
        + quoted_json(name) + ",\n  \"plugins\": "@ + (if ns.len() == 0 {
        "[]"@
    } else {
        "[\n"@ + plugin_list_text(ns) + "\n  ]"@
    }) + "\n}"@
}

fn push_plugin_entry(out: &mut String, n: &String)
    ensures
        final(out)@ == old(out)@ + plugin_entry_text(n@),
{
    out.append("    {\n      \"name\": ");
    let q = quote_json(n.as_str());
    out.append(q.as_str());
    out.append(
        ",\n      \"policy\": {\n        \"authentication\": \"ON_USE\",\n        \"installation\": \"AVAILABLE\"\n      },\n      \"source\": {\n        \"path\": ",
    );
    let mut path = String::from_str("./plugins/");
    path.append(n.as_str());
    let p = quote_json(path.as_str());
    out.append(p.as_str());
    out.append(",\n        \"source\": \"local\"\n      }\n    }");
    assert(final(out)@ =~= old(out)@ + plugin_entry_text(n@));
}

/// The catalog generated for marketplace `marketplace_name` from the plugins
/// `installed` in the cache: refused, as [`check_offered`] refuses, when the
/// bundled marketplace lacks the computer-use plugin; otherwise the UTF-8
/// bytes of [`catalog_text`] of the name and the installed plugins in the
/// order of `str`.
pub fn catalog_document(marketplace_name: &str, installed: &Vec<String>) -> (r: Result<
    Vec<u8>,
    MarketplaceError,
>)
    ensures
        r is Ok <==> offers_required(marketplace_name@, texts_of(installed@)),
        r matches Err(e) ==> e is ComputerUseMissing,
        r matches Ok(b) ==> b@ == encode_utf8(
            catalog_text(marketplace_name@, texts_of(installed@).sort_by(text_order())),
        ),
{
    let names = sorted_texts(installed);
    proof {
        lemma_text_order_is_total();
        texts_of(installed@).lemma_sort_by_ensures(text_order());
        let a = texts_of(installed@);
        let b = texts_of(names@);
        assert(a.contains("unified-computer-use"@) == b.contains("unified-computer-use"@)) by {
            vstd::seq_lib::to_multiset_contains(a, "unified-computer-use"@);
            vstd::seq_lib::to_multiset_contains(b, "unified-computer-use"@);
        }
        assert(installed@.map_values(|s: String| s@) == a);
        assert(names@.map_values(|s: String| s@) == b);
    }
    match check_offered(marketplace_name, &names) {
        Ok(()) => {},
        Err(e) => {
            return Err(e);
        },
    }
    let ghost ns = texts_of(names@);
    let mut out = String::from_str("{\n  \"interface\": {\n    \"displayName\": ");
    let q = quote_json(marketplace_name);
    out.append(q.as_str());
    out.append("\n  },\n  \"name\": ");
    out.append(q.as_str());
    out.append(",\n  \"plugins\": ");
    let ghost head = out@;
    if names.len() == 0 {
        out.append("[]");
    } else {
        out.append("[\n");
        let mut i: usize = 0;
        while i < names.len()
            invariant
                0 < names.len(),
                i <= names.len(),
                ns == texts_of(names@),
                out@ == head + "[\n"@ + plugin_list_text(ns.subrange(0, i as int)),
            decreases names.len() - i,
        {
            let ghost pre = out@;
            if i > 0 {
                out.append(",\n");
            }
            push_plugin_entry(&mut out, &names[i]);
            proof {
                let t = ns.subrange(0, i + 1);
                assert(t.drop_last() =~= ns.subrange(0, i as int));
                assert(t.last() == names@[i as int]@);
                if i == 0 {
                    assert(ns.subrange(0, 0) =~= Seq::<Seq<char>>::empty());
                    assert(out@ =~= head + "[\n"@ + plugin_list_text(t));
                } else {
                    assert(out@ =~= head + "[\n"@ + plugin_list_text(t));
                }
            }
            i = i + 1;
        }
        assert(ns.subrange(0, names.len() as int) =~= ns);
        out.append("\n  ]");
    }
    out.append("\n}");
    assert(out@ =~= catalog_text(marketplace_name@, ns));
    Ok(vstd::slice::slice_to_vec(out.as_str().as_bytes()))
}


/// Which of the installed versions `paths` of a plugin is the newest: the
/// last in the order of `str`; none when nothing is installed.
pub fn newest_installed(paths: &Vec<String>) -> (r: Option<usize>)
    ensures
        r is None <==> paths.len() == 0,
        r matches Some(i) ==> i < paths.len() && forall|j: int|
            0 <= j < paths.len() ==> text_le(#[trigger] paths@[j]@, paths@[i as int]@),
{
    if paths.len() == 0 {
        return None;
    }
    let mut best: usize = 0;
    let mut j: usize = 1;
    proof {
        lemma_text_le_reflexive(paths@[0]@);
    }
    while j < paths.len()
        invariant
            0 < j <= paths.len(),
            best < j,
            forall|k: int| 0 <= k < j ==> text_le(#[trigger] paths@[k]@, paths@[best as int]@),
        decreases paths.len() - j,
    {
        if !text_le_exec(paths[j].as_str(), paths[best].as_str()) {
            proof {
                lemma_text_le_connected(paths@[j as int]@, paths@[best as int]@);
                assert forall|k: int| 0 <= k < j + 1 implies text_le(
                    #[trigger] paths@[k]@,
                    paths@[j as int]@,
                ) by {
                    if k < j {
                        lemma_text_le_transitive(paths@[k]@, paths@[best as int]@, paths@[j as int]@);
                    } else {
                        lemma_text_le_reflexive(paths@[j as int]@);
                    }
                }
            }
            best = j;
        }
        j = j + 1;
    }
    Some(best)
}

} // verus!
