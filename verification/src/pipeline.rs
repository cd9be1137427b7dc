//! The whole in-memory pipeline for one run: merge the user overrides,
//! classify the base diff, scrub user-overridden keys, render the
//! report.

use vstd::prelude::*;

use crate::config::{lemma_map_of_contains, Config};
use crate::diff::{
    changed_of, diff_bases, diff_trace_views, lemma_scrub_traces_contains, removed_of, scrub,
    scrub_trace_views, spec_diff_traces, DiffTrace, ScrubTrace,
};
use crate::load::Configurations;
use crate::merge::{merge_trace_views, merge_user, spec_merge_traces, MergeTrace};
use crate::render::{render_report, spec_report};

verus! {

/// Everything one run produces: the rendered report and the traces of
/// each pipeline stage, in stage order.
pub struct Report {
    pub text: String,
    pub merge_traces: Vec<MergeTrace>,
    pub diff_traces: Vec<DiffTrace>,
    pub scrub_traces: Vec<ScrubTrace>,
}

/// The merged user overrides of the two installs: the new value wins.
pub open spec fn spec_merged_user(old: Configurations, new: Configurations) -> Map<
    Seq<char>,
    Seq<char>,
> {
    old.user_map().union_prefer_right(new.user_map())
}

/// The changed base settings that survive scrubbing.
pub open spec fn spec_changed(old: Configurations, new: Configurations) -> Map<
    Seq<char>,
    Seq<char>,
> {
    changed_of(old.base@, new.base@).remove_keys(spec_merged_user(old, new).dom())
}

/// The removed base settings that survive scrubbing.
pub open spec fn spec_removed(old: Configurations, new: Configurations) -> Map<
    Seq<char>,
    Seq<char>,
> {
    removed_of(old.base@, new.base@).remove_keys(spec_merged_user(old, new).dom())
}

/// Runs the pipeline over the two loaded installs.
pub fn process(old: Configurations, new: Configurations) -> (r: Report)
    requires
        old.wf(),
        new.wf(),
    ensures
        r.text@ == spec_report(
            spec_merged_user(old, new),
            spec_removed(old, new),
            spec_changed(old, new),
        ),
        merge_trace_views(r.merge_traces@) == spec_merge_traces(old.user_map(), new.user_kvs()),
        diff_trace_views(r.diff_traces@) == spec_diff_traces(old.base.kvs(), new.base@),
        forall|k: Seq<char>|
            #[trigger] scrub_trace_views(r.scrub_traces@).contains(k) <==> (spec_merged_user(
                old,
                new,
            ).contains_key(k) && (changed_of(old.base@, new.base@).contains_key(k) || removed_of(
                old.base@,
                new.base@,
            ).contains_key(k))),
{
    let ghost old_snap = old;
    let ghost new_snap = new;
    let old_user = match old.user {
        Some(c) => c,
        None => Config::new(),
    };
    let new_user = match new.user {
        Some(c) => c,
        None => Config::new(),
    };
    proof {
        assert(old_user@ == old_snap.user_map());
        assert(new_user@ == new_snap.user_map());
        assert(new_user.kvs() == new_snap.user_kvs());
    }
    let (merged, merge_traces) = merge_user(&old_user, &new_user);
    let (cs, diff_traces) = diff_bases(&old.base, &new.base);
    let ghost changed0 = cs.changed@;
    let ghost removed0 = cs.removed@;
    let (cs, scrub_traces) = scrub(cs, &merged);
    let text = render_report(&merged, &cs.removed, &cs.changed);
    proof {
        assert forall|k: Seq<char>|
            #[trigger] scrub_trace_views(scrub_traces@).contains(k) <==> (spec_merged_user(
                old_snap,
                new_snap,
            ).contains_key(k) && (changed0.contains_key(k) || removed0.contains_key(k))) by {
            lemma_scrub_traces_contains(merged.kvs(), changed0, removed0, k);
            lemma_map_of_contains(merged.kvs(), k);
        }
    }
    Report { text, merge_traces, diff_traces, scrub_traces }
}

} // verus!
