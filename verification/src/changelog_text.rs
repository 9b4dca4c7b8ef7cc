//! The markdown form of a changelog: one section per release, priorities
//! ordered high to medium to low, empty sections left out.

use vstd::prelude::*;

use crate::history::ChangeV;
use crate::release::{Log, LogV, Release, ReleaseV};
use crate::text;

verus! {

/// A commit hash shortened to its first seven characters.
pub open spec fn spec_short_commit(x: Seq<char>) -> Seq<char> {
    if x.len() <= 7 {
        x
    } else {
        x.take(7)
    }
}

pub open spec fn spec_tags_md(tags: Seq<Seq<char>>) -> Seq<char> {
    if tags.len() == 0 {
        Seq::empty()
    } else {
        " `"@ + text::spec_join_seq(tags, "`, `"@) + "`"@
    }
}

pub open spec fn spec_commit_md(c: Option<Seq<char>>) -> Seq<char> {
    match c {
        Some(x) => " ([`"@ + spec_short_commit(x) + "`])"@,
        None => Seq::empty(),
    }
}

/// One change's line: description, tags in backticks, short commit.
pub open spec fn spec_change_line(c: ChangeV) -> Seq<char> {
    "- "@ + c.description + spec_tags_md(c.tags) + spec_commit_md(c.commit) + seq!['\n']
}

pub open spec fn spec_change_lines(cs: Seq<ChangeV>) -> Seq<char>
    decreases cs.len(),
{
    if cs.len() == 0 {
        Seq::empty()
    } else {
        spec_change_lines(cs.drop_last()) + spec_change_line(cs.last())
    }
}

/// A priority section, left out when it has no changes.
pub open spec fn spec_section(title: Seq<char>, cs: Seq<ChangeV>) -> Seq<char> {
    if cs.len() == 0 {
        Seq::empty()
    } else {
        "### "@ + title + "\n\n"@ + spec_change_lines(cs) + seq!['\n']
    }
}

/// One release's markdown block.
pub open spec fn spec_release_md(rel: ReleaseV) -> Seq<char> {
    "## "@ + rel.version.spec_chars() + " — "@ + rel.date.spec_date_chars() + "\n\n"@
        + spec_section("High Priority"@, rel.high) + spec_section("Changes"@, rel.medium)
        + spec_section("Minor Changes"@, rel.low)
}

pub open spec fn spec_release_blocks(rels: Seq<ReleaseV>) -> Seq<char>
    decreases rels.len(),
{
    if rels.len() == 0 {
        Seq::empty()
    } else {
        spec_release_blocks(rels.drop_last()) + spec_release_md(rels.last()) + seq!['\n']
    }
}

/// The whole changelog document.
pub open spec fn spec_log_md(l: LogV) -> Seq<char> {
    "# Changelog — "@ + l.project_name + "\n\n"@ + "*Generated on "@
        + l.generated_at.spec_date_chars() + "*\n\n"@ + spec_release_blocks(l.releases)
}

fn push_change_line(out: &mut Vec<char>, c: &crate::history::Change)
    ensures
        final(out)@ == old(out)@ + spec_change_line(c@),
{
    text::push_str_chars(out, "- ");
    let desc = text::str_to_chars(c.description.as_str());
    text::push_all(out, &desc);
    if c.tags.len() > 0 {
        text::push_str_chars(out, " `");
        let mut parts: Vec<Vec<char>> = Vec::new();
        let n = c.tags.len();
        let mut i: usize = 0;
        while i < n
            invariant
                i <= n,
                n == c.tags@.len(),
                n == c@.tags.len(),
                parts.deep_view() =~= c@.tags.take(i as int),
            decreases n - i,
        {
            let ghost prev = parts.deep_view();
            parts.push(text::str_to_chars(c.tags[i].as_str()));
            proof {
                assert(c.tags@[i as int]@ == c@.tags[i as int]);
                assert(parts.deep_view() =~~= prev.push(c@.tags[i as int]));
                assert(parts.deep_view() =~~= c@.tags.take(i as int + 1));
            }
            i = i + 1;
        }
        proof {
            assert(c@.tags.take(n as int) =~= c@.tags);
        }
        let sep = text::str_to_chars("`, `");
        let joined = text::join_with_seq(&parts, &sep);
        text::push_all(out, &joined);
        text::push_str_chars(out, "`");
    } else {
        proof {
            assert(spec_tags_md(c@.tags) =~= Seq::<char>::empty());
        }
    }
    match &c.commit {
        Some(x) => {
            text::push_str_chars(out, " ([`");
            let xc = text::str_to_chars(x.as_str());
            let short = if xc.len() <= 7 {
                xc
            } else {
                text::subvec(&xc, 0, 7)
            };
            proof {
                assert(short@ =~= spec_short_commit(x@));
            }
            text::push_all(out, &short);
            text::push_str_chars(out, "`])");
        },
        None => {},
    }
    out.push('\n');
    proof {
        assert(out@ =~= old(out)@ + spec_change_line(c@));
    }
}

fn push_section(out: &mut Vec<char>, title: &str, cs: &Vec<crate::history::Change>)
    ensures
        final(out)@ == old(out)@ + spec_section(title@, cs.deep_view()),
{
    if cs.len() == 0 {
        proof {
            assert(out@ =~= old(out)@ + spec_section(title@, cs.deep_view()));
        }
        return ;
    }
    text::push_str_chars(out, "### ");
    text::push_str_chars(out, title);
    text::push_str_chars(out, "\n\n");
    let n = cs.len();
    let mut i: usize = 0;
    let ghost mid = out@;
    while i < n
        invariant
            i <= n,
            n == cs@.len(),
            n == cs.deep_view().len(),
            out@ == mid + spec_change_lines(cs.deep_view().take(i as int)),
        decreases n - i,
    {
        push_change_line(out, &cs[i]);
        proof {
            assert(cs@[i as int]@ == cs.deep_view()[i as int]);
            assert(cs.deep_view().take(i as int + 1).drop_last() =~= cs.deep_view().take(
                i as int,
            ));
            assert(cs.deep_view().take(i as int + 1).last() == cs.deep_view()[i as int]);
            assert(out@ =~= mid + spec_change_lines(cs.deep_view().take(i as int + 1)));
        }
        i = i + 1;
    }
    out.push('\n');
    proof {
        assert(cs.deep_view().take(n as int) =~= cs.deep_view());
        assert(out@ =~= old(out)@ + spec_section(title@, cs.deep_view()));
    }
}

/// Renders one release's markdown block.
pub fn release_to_markdown(rel: &Release) -> (r: String)
    ensures
        r@ == spec_release_md(rel@),
{
    let mut out: Vec<char> = Vec::new();
    text::push_str_chars(&mut out, "## ");
    let vs = rel.version.version_string();
    let vc = text::str_to_chars(vs.as_str());
    text::push_all(&mut out, &vc);
    text::push_str_chars(&mut out, " — ");
    rel.date.push_date_chars(&mut out);
    text::push_str_chars(&mut out, "\n\n");
    push_section(&mut out, "High Priority", &rel.high);
    push_section(&mut out, "Changes", &rel.medium);
    push_section(&mut out, "Minor Changes", &rel.low);
    proof {
        assert(out@ =~= spec_release_md(rel@));
    }
    text::chars_to_string(&out)
}

/// Renders the whole changelog document.
pub fn to_markdown(log: &Log) -> (r: String)
    ensures
        r@ == spec_log_md(log@),
{
    let mut out: Vec<char> = Vec::new();
    text::push_str_chars(&mut out, "# Changelog — ");
    let name = text::str_to_chars(log.project_name.as_str());
    text::push_all(&mut out, &name);
    text::push_str_chars(&mut out, "\n\n");
    text::push_str_chars(&mut out, "*Generated on ");
    log.generated_at.push_date_chars(&mut out);
    text::push_str_chars(&mut out, "*\n\n");
    let n = log.releases.len();
    let mut i: usize = 0;
    let ghost mid = out@;
    while i < n
        invariant
            i <= n,
            n == log.releases@.len(),
            n == log@.releases.len(),
            out@ == mid + spec_release_blocks(log@.releases.take(i as int)),
        decreases n - i,
    {
        let block = release_to_markdown(&log.releases[i]);
        let bc = text::str_to_chars(block.as_str());
        text::push_all(&mut out, &bc);
        out.push('\n');
        proof {
            assert(log.releases@[i as int]@ == log@.releases[i as int]);
            assert(log@.releases.take(i as int + 1).drop_last() =~= log@.releases.take(
                i as int,
            ));
            assert(log@.releases.take(i as int + 1).last() == log@.releases[i as int]);
            assert(out@ =~= mid + spec_release_blocks(log@.releases.take(i as int + 1)));
        }
        i = i + 1;
    }
    proof {
        assert(log@.releases.take(n as int) =~= log@.releases);
        assert(out@ =~= spec_log_md(log@));
    }
    text::chars_to_string(&out)
}

} // verus!
