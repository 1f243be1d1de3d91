//! Checks on configuration values that produce warnings, never errors.
use crate::config::ConfigSearchProvider;
use crate::text::{bytes_occur, is_prefix, occurs_in, starts_with, str_eq};
use vstd::prelude::*;
use vstd::string::{StrSliceExecFns, StringExecFns, StringSliceAdditionalSpecFns};
use vstd::utf8::encode_utf8;

verus! {

/// A non-fatal problem with a configuration value.
#[derive(Debug)]
pub struct ValidationWarning {
    /// The field that has an issue.
    pub field: String,
    /// A description of the issue.
    pub message: String,
}

/// A warning as a pair of character sequences: field, message.
pub open spec fn warning_view(w: ValidationWarning) -> (Seq<char>, Seq<char>) {
    (w.field@, w.message@)
}

pub open spec fn warning_views(v: Seq<ValidationWarning>) -> Seq<(Seq<char>, Seq<char>)> {
    v.map_values(|w: ValidationWarning| warning_view(w))
}

pub open spec fn url_field(name: Seq<char>) -> Seq<char> {
    "search_providers."@ + name + ".url"@
}

pub open spec fn trigger_field(name: Seq<char>) -> Seq<char> {
    "search_providers."@ + name + ".trigger"@
}

pub open spec fn has_byte_prefix(s: Seq<char>, p: Seq<char>) -> bool {
    is_prefix(encode_utf8(p), encode_utf8(s))
}

pub open spec fn query_warning(name: Seq<char>, url: Seq<char>) -> Seq<(Seq<char>, Seq<char>)> {
    if !occurs_in(encode_utf8(url), encode_utf8("{query}"@)) {
        seq![
            (
                url_field(name),
                "URL for '"@ + name
                    + "' must contain {query} placeholder. Search will not work correctly."@,
            ),
        ]
    } else {
        Seq::empty()
    }
}

pub open spec fn scheme_warning(name: Seq<char>, url: Seq<char>) -> Seq<(Seq<char>, Seq<char>)> {
    if !has_byte_prefix(url, "http://"@) && !has_byte_prefix(url, "https://"@) {
        seq![(url_field(name), "URL for '"@ + name + "' should start with http:// or https://"@)]
    } else {
        Seq::empty()
    }
}

pub open spec fn trigger_warning(name: Seq<char>, trigger: Seq<char>) -> Seq<
    (Seq<char>, Seq<char>),
> {
    if trigger.len() > 0 && !has_byte_prefix(trigger, "!"@) && !has_byte_prefix(trigger, ":"@) {
        seq![
            (
                trigger_field(name),
                "Trigger '"@ + trigger + "' for '"@ + name
                    + "' doesn't start with ! or :. This is allowed but unconventional."@,
            ),
        ]
    } else {
        Seq::empty()
    }
}

pub open spec fn length_warning(name: Seq<char>, trigger: Seq<char>) -> Seq<
    (Seq<char>, Seq<char>),
> {
    if encode_utf8(trigger).len() > 10 {
        seq![
            (
                trigger_field(name),
                "Trigger '"@ + trigger + "' is quite long. Shorter triggers are easier to type."@,
            ),
        ]
    } else {
        Seq::empty()
    }
}

/// The warnings for a search provider, in order: a URL without the
/// `{query}` placeholder; a URL without an `http://` or `https://` scheme; a
/// non-empty trigger that starts with neither `!` nor `:`; a trigger longer
/// than ten bytes.
pub open spec fn provider_warnings(name: Seq<char>, trigger: Seq<char>, url: Seq<char>) -> Seq<
    (Seq<char>, Seq<char>),
> {
    query_warning(name, url) + scheme_warning(name, url) + trigger_warning(name, trigger)
        + length_warning(name, trigger)
}

fn field_for(name: &str, suffix: &str) -> (r: String)
    ensures
        r@ == "search_providers."@ + name@ + suffix@,
{
    let mut f = String::from_str("search_providers.");
    f.append(name);
    f.append(suffix);
    f
}

/// The warnings for one search provider, in the order that
/// [`provider_warnings`] gives.
pub fn validate_search_provider(provider: &ConfigSearchProvider) -> (r: Vec<ValidationWarning>)
    ensures
        warning_views(r@) == provider_warnings(
            provider.name@,
            provider.trigger@,
            provider.url@,
        ),
{
    let name = provider.name.as_str();
    let trigger = provider.trigger.as_str();
    let url = provider.url.as_str();
    let mut out: Vec<ValidationWarning> = Vec::new();
    let ghost mut expect: Seq<(Seq<char>, Seq<char>)> = Seq::empty();
    assert(warning_views(out@) =~= expect);
    if !bytes_occur(url.as_bytes(), "{query}".as_bytes()) {
        let mut m = String::from_str("URL for '");
        m.append(name);
        m.append("' must contain {query} placeholder. Search will not work correctly.");
        out.push(ValidationWarning { field: field_for(name, ".url"), message: m });
        proof {
            expect = expect + seq![
                (
                    url_field(name@),
                    "URL for '"@ + name@
                        + "' must contain {query} placeholder. Search will not work correctly."@,
                ),
            ];
        }
        assert(warning_views(out@) =~= expect);
    }
    assert(expect == query_warning(name@, url@));
    if !starts_with(url, "http://") && !starts_with(url, "https://") {
        let mut m = String::from_str("URL for '");
        m.append(name);
        m.append("' should start with http:// or https://");
        let ghost before = out@;
        out.push(ValidationWarning { field: field_for(name, ".url"), message: m });
        proof {
            expect = expect + seq![
                (url_field(name@), "URL for '"@ + name@ + "' should start with http:// or https://"@),
            ];
        }
        assert(warning_views(out@) =~= expect);
    }
    assert(expect == query_warning(name@, url@) + scheme_warning(name@, url@));
    if trigger.unicode_len() > 0 && !starts_with(trigger, "!") && !starts_with(trigger, ":") {
        let mut m = String::from_str("Trigger '");
        m.append(trigger);
        m.append("' for '");
        m.append(name);
        m.append("' doesn't start with ! or :. This is allowed but unconventional.");
        out.push(ValidationWarning { field: field_for(name, ".trigger"), message: m });
        proof {
            expect = expect + seq![
                (
                    trigger_field(name@),
                    "Trigger '"@ + trigger@ + "' for '"@ + name@
                        + "' doesn't start with ! or :. This is allowed but unconventional."@,
                ),
            ];
        }
        assert(warning_views(out@) =~= expect);
    }
    assert(expect =~= query_warning(name@, url@) + scheme_warning(name@, url@) + trigger_warning(
        name@,
        trigger@,
    ));
    if trigger.as_bytes().len() > 10 {
        let mut m = String::from_str("Trigger '");
        m.append(trigger);
        m.append("' is quite long. Shorter triggers are easier to type.");
        out.push(ValidationWarning { field: field_for(name, ".trigger"), message: m });
        proof {
            expect = expect + seq![
                (
                    trigger_field(name@),
                    "Trigger '"@ + trigger@
                        + "' is quite long. Shorter triggers are easier to type."@,
                ),
            ];
        }
        assert(warning_views(out@) =~= expect);
    }
    assert(expect =~= provider_warnings(provider.name@, provider.trigger@, provider.url@));
    out
}

/// Whether a theme of this name is among the known themes.
pub fn validate_theme_name(name: &str, themes: &Vec<String>) -> (r: bool)
    ensures
        r == exists|i: int| 0 <= i < themes@.len() && #[trigger] themes@[i]@ == name@,
{
    let mut i: usize = 0;
    while i < themes.len()
        invariant
            i <= themes@.len(),
            forall|t: int| 0 <= t < i ==> #[trigger] themes@[t]@ != name@,
        decreases themes.len() - i,
    {
        if str_eq(themes[i].as_str(), name) {
            return true;
        }
        i = i + 1;
    }
    false
}

} // verus!
