//! Portal APK lifecycle decisions: version compatibility, where to download
//! the APK, and what a readiness check asks to do next.
use vstd::prelude::*;

use crate::error::{DroidrunError, Result};
use crate::json::JsonView;
use crate::portal::{content_provider_json, parse_content_provider_output, A11Y_SERVICE, PORTAL_PACKAGE};
use crate::text::{
    chars_eq, chars_of, contains, copy_range, find, find_chars, find_from, parse_u32,
    parse_unsigned, push_str, split_chars, split_on, string_of, views,
};

verus! {

/// Release asset name of the Portal APK.
pub const ASSET_NAME: &'static str = "droidrun-portal";

/// The numbers of a dotted version, when every part is a `u32`.
pub open spec fn version_numbers(parts: Seq<Seq<char>>) -> Option<Seq<u32>>
    decreases parts.len(),
{
    if parts.len() == 0 {
        Some(seq![])
    } else {
        match version_numbers(parts.drop_last()) {
            Some(p) => match parse_unsigned(parts.last(), u32::MAX as int) {
                Some(v) => Some(p.push(v as u32)),
                None => None,
            },
            None => None,
        }
    }
}

/// The numbers of a dotted version text.
pub open spec fn version_of(s: Seq<char>) -> Option<Seq<u32>> {
    version_numbers(split_on(s, '.'))
}

/// Lexicographic `<=` on number lists (as `Vec<u32>` compares).
pub open spec fn lex_le(a: Seq<u32>, b: Seq<u32>) -> bool
    decreases a.len(),
{
    if a.len() == 0 {
        true
    } else if b.len() == 0 {
        false
    } else if a[0] < b[0] {
        true
    } else if a[0] > b[0] {
        false
    } else {
        lex_le(a.drop_first(), b.drop_first())
    }
}

/// Whether `version` lies in the inclusive range `start-end` (split at the
/// first `-`); false when a part is not a dotted list of `u32`s.
pub open spec fn in_range(version: Seq<char>, range: Seq<char>) -> bool {
    match find(range, "-"@) {
        None => false,
        Some(i) => match (version_of(version), version_of(range.take(i)), version_of(
            range.skip(i + 1),
        )) {
            (Some(v), Some(s), Some(e)) => lex_le(s, v) && lex_le(v, e),
            _ => false,
        },
    }
}

/// `lex_le` is reflexive.
pub proof fn lemma_lex_le_refl(a: Seq<u32>)
    ensures
        lex_le(a, a),
    decreases a.len(),
{
    if a.len() > 0 {
        lemma_lex_le_refl(a.drop_first());
    }
}

proof fn lemma_find_dash(s: Seq<char>, e: Seq<char>, k: int)
    requires
        0 <= k <= s.len(),
        !contains(s, "-"@),
        "-"@ == seq!['-'],
    ensures
        find_from(s + "-"@ + e, "-"@, k) == Some(s.len() as int),
    decreases s.len() - k,
{
    let t = s + "-"@ + e;
    if k < s.len() {
        if crate::text::occurs_at(t, "-"@, k) {
            assert(t.subrange(k, k + 1) =~= s.subrange(k, k + 1));
            assert(crate::text::occurs_at(s, "-"@, k));
        }
        lemma_find_dash(s, e, k + 1);
    } else {
        assert(t.subrange(k, k + 1) =~= "-"@);
    }
}

/// A range includes its endpoints: for dotted versions `s <= e`, where `s`
/// has no `-`, both `s` and `e` lie in the range `s-e`.
pub proof fn lemma_range_endpoints(s: Seq<char>, e: Seq<char>)
    requires
        version_of(s) is Some,
        version_of(e) is Some,
        !contains(s, "-"@),
        lex_le(version_of(s)->0, version_of(e)->0),
    ensures
        in_range(s, s + "-"@ + e),
        in_range(e, s + "-"@ + e),
{
    reveal_strlit("-");
    assert("-"@ =~= seq!['-']);
    let t = s + "-"@ + e;
    lemma_find_dash(s, e, 0);
    assert(t.take(s.len() as int) =~= s);
    assert(t.skip(s.len() as int + 1) =~= e);
    lemma_lex_le_refl(version_of(s)->0);
    lemma_lex_le_refl(version_of(e)->0);
}

fn parse_version(s: &[char]) -> (r: Option<Vec<u32>>)
    ensures
        match version_of(s@) {
            Some(v) => r matches Some(x) && x@ == v,
            None => r is None,
        },
{
    let parts = split_chars(s, '.');
    let ghost pv = views(parts@);
    let mut out: Vec<u32> = Vec::new();
    let mut i: usize = 0;
    while i < parts.len()
        invariant
            pv == views(parts@),
            pv == split_on(s@, '.'),
            i <= parts.len(),
            version_numbers(pv.take(i as int)) == Some(out@),
        decreases parts.len() - i,
    {
        assert(pv.take(i + 1).drop_last() =~= pv.take(i as int));
        assert(pv.take(i + 1).last() == parts@[i as int]@);
        match parse_u32(parts[i].as_slice()) {
            Some(v) => {
                out.push(v);
            },
            None => {
                proof {
                    lemma_numbers_prefix_none(pv, i as int + 1);
                }
                return None;
            },
        }
        i = i + 1;
    }
    assert(pv.take(parts.len() as int) =~= pv);
    Some(out)
}

proof fn lemma_numbers_prefix_none(pv: Seq<Seq<char>>, n: int)
    requires
        0 <= n <= pv.len(),
        version_numbers(pv.take(n)) is None,
    ensures
        version_numbers(pv) is None,
    decreases pv.len() - n,
{
    if n < pv.len() {
        assert(pv.take(n + 1).drop_last() =~= pv.take(n));
        lemma_numbers_prefix_none(pv, n + 1);
    } else {
        assert(pv.take(n) =~= pv);
    }
}

fn lex_le_exec(a: &Vec<u32>, b: &Vec<u32>) -> (r: bool)
    ensures
        r == lex_le(a@, b@),
{
    let mut i: usize = 0;
    assert(a@.skip(0) =~= a@ && b@.skip(0) =~= b@);
    while i < a.len() && i < b.len() && a[i] == b[i]
        invariant
            i <= a.len(),
            i <= b.len(),
            lex_le(a@, b@) == lex_le(a@.skip(i as int), b@.skip(i as int)),
        decreases a.len() - i,
    {
        assert(a@.skip(i as int).drop_first() =~= a@.skip(i + 1));
        assert(b@.skip(i as int).drop_first() =~= b@.skip(i + 1));
        i = i + 1;
    }
    if i == a.len() {
        return true;
    }
    if i == b.len() {
        return false;
    }
    a[i] < b[i]
}

/// Checks if a version falls within a range like `0.4.0-0.4.14`.
pub fn version_in_range(version: &str, range: &str) -> (r: bool)
    ensures
        r == in_range(version@, range@),
{
    let rc = chars_of(range);
    let dash = chars_of("-");
    let n = rc.len();
    let i = match find_chars(rc.as_slice(), dash.as_slice()) {
        Some(i) => i,
        None => {
            return false;
        },
    };
    proof {
        crate::text::lemma_find_from_sound(rc@, dash@, 0);
        reveal_strlit("-");
    }
    let start = copy_range(rc.as_slice(), 0, i);
    let end = copy_range(rc.as_slice(), i + 1, n);
    assert(start@ =~= range@.take(i as int));
    let vc = chars_of(version);
    let v = match parse_version(vc.as_slice()) {
        Some(v) => v,
        None => {
            return false;
        },
    };
    let s = match parse_version(start.as_slice()) {
        Some(s) => s,
        None => {
            return false;
        },
    };
    let e = match parse_version(end.as_slice()) {
        Some(e) => e,
        None => {
            return false;
        },
    };
    lex_le_exec(&s, &v) && lex_le_exec(&v, &e)
}

/// The Portal version in the version query's output, when it is a string.
pub open spec fn portal_version_of(raw: Seq<char>) -> Option<Seq<char>> {
    match content_provider_json(raw) {
        Some(JsonView::Str(s)) => Some(s),
        _ => None,
    }
}

/// Extracts the Portal version string from content-provider output.
pub fn parse_portal_version(raw: &str) -> (r: Option<String>)
    ensures
        match portal_version_of(raw@) {
            Some(v) => r matches Some(s) && s@ == v,
            None => r is None,
        },
{
    let data = parse_content_provider_output(raw)?;
    match data.as_str() {
        Some(s) => Some(s.to_owned()),
        None => None,
    }
}

/// The position of the first mapping whose key is `sdk`.
pub open spec fn exact_key(m: Seq<(String, String)>, sdk: Seq<char>, i: int) -> Option<int>
    decreases m.len() - i,
{
    if i < 0 || i >= m.len() {
        None
    } else if m[i].0@ == sdk {
        Some(i)
    } else {
        exact_key(m, sdk, i + 1)
    }
}

/// The position of the first mapping whose key is a range holding `sdk`.
pub open spec fn range_key(m: Seq<(String, String)>, sdk: Seq<char>, i: int) -> Option<int>
    decreases m.len() - i,
{
    if i < 0 || i >= m.len() {
        None
    } else if in_range(sdk, m[i].0@) {
        Some(i)
    } else {
        range_key(m, sdk, i + 1)
    }
}

/// The mapping chosen for an SDK version: an exact key, else the first range
/// that holds it, else the last mapping.
pub open spec fn chosen_mapping(m: Seq<(String, String)>, sdk: Seq<char>) -> Option<int> {
    match exact_key(m, sdk, 0) {
        Some(i) => Some(i),
        None => match range_key(m, sdk, 0) {
            Some(i) => Some(i),
            None => if m.len() > 0 {
                Some(m.len() - 1)
            } else {
                None
            },
        },
    }
}

/// Chooses the Portal version for an SDK version from the version map's
/// mappings (in the order the map yields them) and download base.
pub fn choose_portal_version(
    sdk_version: &str,
    mappings: &Vec<(String, String)>,
    download_base: &str,
) -> (r: Result<(String, String)>)
    ensures
        match chosen_mapping(mappings@, sdk_version@) {
            Some(i) => r matches Ok((v, b)) && v@ == mappings@[i].1@ && b@ == download_base@,
            None => r matches Err(DroidrunError::PortalSetupFailed(m)) && m@
                == "cannot determine compatible portal version"@,
        },
{
    let sc = chars_of(sdk_version);
    let mut i: usize = 0;
    while i < mappings.len()
        invariant
            i <= mappings.len(),
            sc@ == sdk_version@,
            exact_key(mappings@, sdk_version@, 0) == exact_key(mappings@, sdk_version@, i as int),
        decreases mappings.len() - i,
    {
        let kc = chars_of(mappings[i].0.as_str());
        if chars_eq(kc.as_slice(), sc.as_slice()) {
            return Ok((mappings[i].1.clone(), download_base.to_owned()));
        }
        i = i + 1;
    }
    let mut j: usize = 0;
    while j < mappings.len()
        invariant
            j <= mappings.len(),
            exact_key(mappings@, sdk_version@, 0) is None,
            range_key(mappings@, sdk_version@, 0) == range_key(mappings@, sdk_version@, j as int),
        decreases mappings.len() - j,
    {
        if version_in_range(sdk_version, mappings[j].0.as_str()) {
            return Ok((mappings[j].1.clone(), download_base.to_owned()));
        }
        j = j + 1;
    }
    let n = mappings.len();
    if n > 0 {
        Ok((mappings[n - 1].1.clone(), download_base.to_owned()))
    } else {
        Err(DroidrunError::PortalSetupFailed("cannot determine compatible portal version".to_owned()))
    }
}

/// The release download base used when the version map names none.
pub fn default_download_base() -> (r: String)
    ensures
        r@ == "https://github.com/droidrun/droidrun-portal/releases/download"@,
{
    "https://github.com/droidrun/droidrun-portal/releases/download".to_owned()
}

/// `<base>/<version>/droidrun-portal-<version>.apk`.
pub fn apk_url(download_base: &str, version: &str) -> (r: String)
    ensures
        r@ == download_base@ + "/"@ + version@ + "/"@ + ASSET_NAME@ + "-"@ + version@ + ".apk"@,
{
    let mut v = chars_of(download_base);
    push_str(&mut v, "/");
    push_str(&mut v, version);
    push_str(&mut v, "/");
    push_str(&mut v, ASSET_NAME);
    push_str(&mut v, "-");
    push_str(&mut v, version);
    push_str(&mut v, ".apk");
    string_of(v.as_slice())
}

// ---- readiness ----

/// What a readiness check asks to do next.
#[derive(Debug, Clone, PartialEq, Eq)]
pub enum ReadyStep {
    /// The device did not answer any health check: nothing to do.
    Skip,
    /// Install (or reinstall) the Portal.
    Setup,
    /// Compare the installed version with the expected one.
    CheckVersion { installed: String, a11y_enabled: bool },
    /// Switch the accessibility service on.
    EnableAccessibility,
    /// Everything is in place.
    Ready,
}

/// Whether the package list holds the Portal.
pub open spec fn lists_portal(packages: Seq<String>) -> bool {
    exists|i: int| 0 <= i < packages.len() && (#[trigger] packages[i])@ == PORTAL_PACKAGE@
}

/// The next step after the health checks (each `None` when it failed).
pub fn first_ready_step(
    packages: Option<&Vec<String>>,
    version_output: Option<&str>,
    a11y_output: Option<&str>,
) -> (r: ReadyStep)
    ensures
        packages is None && version_output is None && a11y_output is None ==> r == ReadyStep::Skip,
        !(packages is None && version_output is None && a11y_output is None) ==> {
            let installed = packages matches Some(p) && lists_portal(p@);
            let a11y = a11y_output matches Some(s) && contains(s@, A11Y_SERVICE@);
            let version = match version_output {
                Some(o) => portal_version_of(o@),
                None => None,
            };
            if !installed {
                r == ReadyStep::Setup
            } else if version is Some {
                r matches ReadyStep::CheckVersion { installed: v, a11y_enabled: a } && v@
                    == version->0 && a == a11y
            } else if !a11y {
                r == ReadyStep::EnableAccessibility
            } else {
                r == ReadyStep::Ready
            }
        },
{
    if packages.is_none() && version_output.is_none() && a11y_output.is_none() {
        return ReadyStep::Skip;
    }
    let installed = match packages {
        Some(p) => {
            let target = chars_of(PORTAL_PACKAGE);
            let mut found = false;
            let mut i: usize = 0;
            while i < p.len()
                invariant
                    i <= p.len(),
                    target@ == PORTAL_PACKAGE@,
                    found == exists|k: int| 0 <= k < i && (#[trigger] p@[k])@ == PORTAL_PACKAGE@,
                decreases p.len() - i,
            {
                let c = chars_of(p[i].as_str());
                if chars_eq(c.as_slice(), target.as_slice()) {
                    found = true;
                }
                i = i + 1;
            }
            found
        },
        None => false,
    };
    let version = match version_output {
        Some(o) => parse_portal_version(o),
        None => None,
    };
    let a11y = match a11y_output {
        Some(s) => crate::portal::service_listed(s),
        None => false,
    };
    if !installed {
        ReadyStep::Setup
    } else {
        match version {
            Some(v) => ReadyStep::CheckVersion { installed: v, a11y_enabled: a11y },
            None => if !a11y {
                ReadyStep::EnableAccessibility
            } else {
                ReadyStep::Ready
            },
        }
    }
}

/// The text without its leading `v` characters.
pub open spec fn without_v(s: Seq<char>) -> Seq<char>
    decreases s.len(),
{
    if s.len() > 0 && s[0] == 'v' {
        without_v(s.drop_first())
    } else {
        s
    }
}

/// The next step once the expected version is known (`None` when it could
/// not be fetched): reinstall on a mismatch, else see to accessibility.
pub fn after_version_check(installed: &str, expected: Option<&str>, a11y_enabled: bool) -> (r:
    ReadyStep)
    ensures
        (expected matches Some(e) && installed@ != without_v(e@)) ==> r == ReadyStep::Setup,
        !(expected matches Some(e) && installed@ != without_v(e@)) ==> r == (if a11y_enabled {
            ReadyStep::Ready
        } else {
            ReadyStep::EnableAccessibility
        }),
{
    match expected {
        Some(e) => {
            let ec = chars_of(e);
            let mut k: usize = 0;
            assert(ec@.skip(0) =~= ec@);
            while k < ec.len() && ec[k] == 'v'
                invariant
                    k <= ec.len(),
                    without_v(e@) == without_v(ec@.skip(k as int)),
                    ec@ == e@,
                decreases ec.len() - k,
            {
                assert(ec@.skip(k as int).drop_first() =~= ec@.skip(k + 1));
                k = k + 1;
            }
            let n = ec.len();
            let clean = copy_range(ec.as_slice(), k, n);
            assert(clean@ =~= ec@.skip(k as int));
            let ic = chars_of(installed);
            if !chars_eq(ic.as_slice(), clean.as_slice()) {
                return ReadyStep::Setup;
            }
        },
        None => {},
    }
    if a11y_enabled {
        ReadyStep::Ready
    } else {
        ReadyStep::EnableAccessibility
    }
}

} // verus!
