//! Preference data: the configuration record and its defaults, the dotted
//! key normalization, and the duration wording the pruning report uses.

use vstd::prelude::*;

use crate::task::Priority;
use crate::text;

verus! {

/// Default settings for new tasks.
#[derive(Debug, Clone)]
pub struct Defaults {
    pub priority: Priority,
    pub tags: Vec<String>,
    pub editor: String,
}

impl Default for Defaults {
    fn default() -> (r: Defaults)
        ensures
            r.priority == Priority::Medium,
            r.tags@.len() == 0,
            r.editor@ == "nvim"@,
    {
        Defaults { priority: Priority::Medium, tags: Vec::new(), editor: "nvim".to_owned() }
    }
}

/// Git-related settings.
#[derive(Debug, Clone)]
pub struct Git {
    pub done_prefix: String,
}

impl Default for Git {
    fn default() -> (r: Git)
        ensures
            r.done_prefix@ == "done:"@,
    {
        Git { done_prefix: "done:".to_owned() }
    }
}

/// Pruning settings.
#[derive(Debug, Clone)]
pub struct Prune {
    pub prune_after_days: i64,
}

impl Default for Prune {
    fn default() -> (r: Prune)
        ensures
            r.prune_after_days == 30,
    {
        Prune { prune_after_days: 30 }
    }
}

/// The whole preference record.
#[derive(Debug, Clone)]
pub struct AppConfig {
    pub defaults: Defaults,
    pub git: Git,
    pub commands: Prune,
}

impl Default for AppConfig {
    fn default() -> (r: AppConfig)
        ensures
            r.defaults.priority == Priority::Medium,
            r.defaults.tags@.len() == 0,
            r.defaults.editor@ == "nvim"@,
            r.git.done_prefix@ == "done:"@,
            r.commands.prune_after_days == 30,
    {
        AppConfig {
            defaults: Defaults::default(),
            git: Git::default(),
            commands: Prune::default(),
        }
    }
}

/// Maps the shorthand key `editor` to its full dotted path; any other key
/// passes through.
pub fn normalize_key(key: &String) -> (r: String)
    ensures
        key@ == "editor"@ ==> r@ == "preferences.editor"@,
        key@ != "editor"@ ==> r@ == key@,
{
    let kc = text::str_to_chars(key.as_str());
    let lit = text::str_to_chars("editor");
    if text::chars_eq(&kc, &lit) {
        "preferences.editor".to_owned()
    } else {
        key.clone()
    }
}

/// The wording of a duration given in hours: whole days, leftover hours, or
/// both.
pub open spec fn spec_format_duration(total_hours: int) -> Seq<char> {
    let days = total_hours / 24;
    let hours = total_hours % 24;
    if days == 0 {
        text::spec_dec_digits(hours) + " hour(s)"@
    } else if hours == 0 {
        text::spec_dec_digits(days) + " day(s)"@
    } else {
        text::spec_dec_digits(days) + " day(s) "@ + text::spec_dec_digits(hours) + " hour(s)"@
    }
}

/// Describes a duration in days and hours.
pub fn format_duration(total_hours: u64) -> (r: String)
    ensures
        r@ == spec_format_duration(total_hours as int),
{
    let days: u64 = total_hours / 24;
    let hours: u64 = total_hours % 24;
    let mut out: Vec<char> = Vec::new();
    if days == 0 {
        let d = text::u64_digits(hours);
        text::push_all(&mut out, &d);
        text::push_str_chars(&mut out, " hour(s)");
    } else if hours == 0 {
        let d = text::u64_digits(days);
        text::push_all(&mut out, &d);
        text::push_str_chars(&mut out, " day(s)");
    } else {
        let d = text::u64_digits(days);
        text::push_all(&mut out, &d);
        text::push_str_chars(&mut out, " day(s) ");
        let h = text::u64_digits(hours);
        text::push_all(&mut out, &h);
        text::push_str_chars(&mut out, " hour(s)");
    }
    proof {
        assert(out@ =~= spec_format_duration(total_hours as int));
    }
    text::chars_to_string(&out)
}

} // verus!
