//! Names and asset paths of the launcher's bundled Phosphor icons.
use crate::text::{is_prefix, starts_with, str_eq};
use vstd::string::StringSliceAdditionalSpecFns;
use vstd::utf8::encode_utf8;
use vstd::prelude::*;

verus! {

/// A bundled Phosphor (bold) icon.
#[derive(Clone, Copy, Debug, PartialEq, Eq, Structural)]
pub enum PhosphorIcon {
    Power,
    Reboot,
    Moon,
    Lock,
    SignOut,
    Smiley,
    Terminal,
}

/// The icon's short name, as used in configuration.
pub open spec fn icon_name(i: PhosphorIcon) -> Seq<char> {
    match i {
        PhosphorIcon::Power => "power"@,
        PhosphorIcon::Reboot => "reboot"@,
        PhosphorIcon::Moon => "moon"@,
        PhosphorIcon::Lock => "lock"@,
        PhosphorIcon::SignOut => "sign-out"@,
        PhosphorIcon::Smiley => "smiley"@,
        PhosphorIcon::Terminal => "terminal"@,
    }
}

/// The icon's asset path.
pub open spec fn icon_path(i: PhosphorIcon) -> Seq<char> {
    match i {
        PhosphorIcon::Power => "icons/power.svg"@,
        PhosphorIcon::Reboot => "icons/reboot.svg"@,
        PhosphorIcon::Moon => "icons/moon.svg"@,
        PhosphorIcon::Lock => "icons/lock.svg"@,
        PhosphorIcon::SignOut => "icons/sign-out.svg"@,
        PhosphorIcon::Smiley => "icons/smiley.svg"@,
        PhosphorIcon::Terminal => "icons/terminal.svg"@,
    }
}

impl PhosphorIcon {
    /// The asset path of this icon.
    pub fn path(self) -> (r: &'static str)
        ensures
            r@ == icon_path(self),
    {
        match self {
            PhosphorIcon::Power => "icons/power.svg",
            PhosphorIcon::Reboot => "icons/reboot.svg",
            PhosphorIcon::Moon => "icons/moon.svg",
            PhosphorIcon::Lock => "icons/lock.svg",
            PhosphorIcon::SignOut => "icons/sign-out.svg",
            PhosphorIcon::Smiley => "icons/smiley.svg",
            PhosphorIcon::Terminal => "icons/terminal.svg",
        }
    }

    /// The icon with this short name, if there is one.
    pub fn from_name(name: &str) -> (r: Option<PhosphorIcon>)
        ensures
            r matches Some(i) ==> icon_name(i) == name@,
            r is None ==> forall|i: PhosphorIcon| icon_name(i) != name@,
    {
        if str_eq(name, "power") {
            Some(PhosphorIcon::Power)
        } else if str_eq(name, "reboot") {
            Some(PhosphorIcon::Reboot)
        } else if str_eq(name, "moon") {
            Some(PhosphorIcon::Moon)
        } else if str_eq(name, "lock") {
            Some(PhosphorIcon::Lock)
        } else if str_eq(name, "sign-out") {
            Some(PhosphorIcon::SignOut)
        } else if str_eq(name, "smiley") {
            Some(PhosphorIcon::Smiley)
        } else if str_eq(name, "terminal") {
            Some(PhosphorIcon::Terminal)
        } else {
            None
        }
    }
}

/// The asset source that serves the bundled Phosphor icons first and the
/// UI component library's icons second.
pub struct CombinedAssets;

/// Where a request for an asset is served from.
#[derive(Debug, Clone, Copy, PartialEq, Eq, Structural)]
pub enum AssetOrigin {
    /// An empty path: nothing.
    Nowhere,
    /// The bundled Phosphor icons.
    Bundled,
    /// The component library's assets.
    Components,
}

/// The names under `prefix` (by UTF-8 bytes), in order.
pub open spec fn names_under(names: Seq<Seq<char>>, prefix: Seq<char>) -> Seq<Seq<char>>
    decreases names.len(),
{
    if names.len() == 0 {
        names
    } else if is_prefix(encode_utf8(prefix), encode_utf8(names.last())) {
        names_under(names.drop_last(), prefix).push(names.last())
    } else {
        names_under(names.drop_last(), prefix)
    }
}

impl CombinedAssets {
    /// Where a request for `path` is served from, given whether the bundled
    /// icons hold it.
    pub fn origin(path: &str, bundled: bool) -> (r: AssetOrigin)
        ensures
            path@.len() == 0 ==> r == AssetOrigin::Nowhere,
            path@.len() > 0 && bundled ==> r == AssetOrigin::Bundled,
            path@.len() > 0 && !bundled ==> r == AssetOrigin::Components,
    {
        if str_eq(path, "") {
            proof {
                reveal_strlit("");
            }
            AssetOrigin::Nowhere
        } else {
            proof {
                reveal_strlit("");
                if path@.len() == 0 {
                    assert(path@ =~= ""@);
                }
            }
            if bundled {
                AssetOrigin::Bundled
            } else {
                AssetOrigin::Components
            }
        }
    }

    /// The bundled asset names that lie under `prefix`, in order.
    pub fn listed(names: &Vec<String>, prefix: &str) -> (r: Vec<String>)
        ensures
            r@.map_values(|s: String| s@) == names_under(names@.map_values(|s: String| s@), prefix@),
    {
        let ghost all = names@.map_values(|s: String| s@);
        let mut out: Vec<String> = Vec::new();
        let mut i: usize = 0;
        while i < names.len()
            invariant
                i <= names@.len(),
                all == names@.map_values(|s: String| s@),
                out@.map_values(|s: String| s@) == names_under(all.take(i as int), prefix@),
            decreases names.len() - i,
        {
            assert(all.take(i + 1).drop_last() =~= all.take(i as int));
            assert(all.take(i + 1).last() == names@[i as int]@);
            if starts_with(names[i].as_str(), prefix) {
                out.push(names[i].clone());
                assert(out@.map_values(|s: String| s@) =~= names_under(all.take(i + 1), prefix@));
            }
            i = i + 1;
        }
        assert(all.take(i as int) =~= all);
        out
    }
}

} // verus!
