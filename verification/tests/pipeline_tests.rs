use bmsupgrade::config::Config;
use bmsupgrade::diff::{diff_bases, scrub};
use bmsupgrade::load::{load_configurations, Configurations, FileRole, LoadDiagKind, LoadError, ReadOutcome};
use bmsupgrade::merge::merge_user;
use bmsupgrade::pipeline::process;
use bmsupgrade::render::{render_config, render_report};

fn cfg_of(pairs: &[(&str, &str)]) -> Config {
    let mut cfg = Config::new();
    for (k, v) in pairs {
        cfg.insert(k.to_string(), v.to_string());
    }
    cfg
}

fn get<'a>(cfg: &'a Config, key: &str) -> Option<&'a String> {
    cfg.get(&key.to_string())
}

const REMOVED_HEADER: &str = "\n// These settings were in the old Falcon BMS.cfg but not the new.\n// They might be unused in the new version of BMS,\n// or maybe you set them! Clean up any you don't want.\n";

const CHANGED_HEADER: &str = "\n// These settings were changed from the old Falcon BMS.cfg to the new.\n// DELETE THEM IF YOU DIDN'T SET THEM YOURSELF!\n// (If you didn't, there's probably a reason they changed.)\n";

#[test]
fn diff_reports_changed_with_old_value() {
    let old = cfg_of(&[("a", "1"), ("b", "2")]);
    let new = cfg_of(&[("a", "1"), ("b", "3")]);
    let (cs, traces) = diff_bases(&old, &new);
    assert_eq!(cs.changed.len(), 1);
    assert_eq!(get(&cs.changed, "b").unwrap(), "2");
    assert_eq!(cs.removed.len(), 0);
    assert_eq!(traces.len(), 1);
    assert_eq!(traces[0].key, "b");
    assert_eq!(traces[0].old_value, "2");
    assert_eq!(traces[0].new_value, "3");
}

#[test]
fn diff_reports_removed() {
    let old = cfg_of(&[("a", "1"), ("b", "2")]);
    let new = cfg_of(&[("a", "1")]);
    let (cs, traces) = diff_bases(&old, &new);
    assert_eq!(cs.changed.len(), 0);
    assert_eq!(cs.removed.len(), 1);
    assert_eq!(get(&cs.removed, "b").unwrap(), "2");
    assert!(traces.is_empty());
}

#[test]
fn diff_ignores_additions() {
    let old = cfg_of(&[("a", "1")]);
    let new = cfg_of(&[("a", "1"), ("z", "9")]);
    let (cs, traces) = diff_bases(&old, &new);
    assert_eq!(cs.changed.len(), 0);
    assert_eq!(cs.removed.len(), 0);
    assert!(traces.is_empty());
}

#[test]
fn scrub_drops_user_overridden_keys() {
    let old = cfg_of(&[("b", "2"), ("c", "4")]);
    let new = cfg_of(&[("b", "3")]);
    let (cs, _) = diff_bases(&old, &new);
    assert_eq!(get(&cs.changed, "b").unwrap(), "2");
    assert_eq!(get(&cs.removed, "c").unwrap(), "4");
    let user = cfg_of(&[("b", "9"), ("c", "5")]);
    let (cs, traces) = scrub(cs, &user);
    assert_eq!(cs.changed.len(), 0);
    assert_eq!(cs.removed.len(), 0);
    let mut keys: Vec<String> = traces.iter().map(|t| t.key.clone()).collect();
    keys.sort();
    assert_eq!(keys, vec!["b".to_string(), "c".to_string()]);
}

#[test]
fn scrub_is_idempotent() {
    let old = cfg_of(&[("b", "2"), ("keep", "1")]);
    let new = cfg_of(&[("b", "3"), ("keep", "2")]);
    let user = cfg_of(&[("b", "9")]);
    let (cs, _) = diff_bases(&old, &new);
    let (cs, _) = scrub(cs, &user);
    assert_eq!(cs.changed.len(), 1);
    assert_eq!(get(&cs.changed, "keep").unwrap(), "1");
    let (cs, traces) = scrub(cs, &user);
    assert_eq!(cs.changed.len(), 1);
    assert_eq!(get(&cs.changed, "keep").unwrap(), "1");
    assert!(traces.is_empty());
}

#[test]
fn user_merge_new_value_wins_with_trace() {
    let old = cfg_of(&[("x", "1")]);
    let new = cfg_of(&[("x", "2"), ("y", "3")]);
    let (merged, traces) = merge_user(&old, &new);
    assert_eq!(merged.len(), 2);
    assert_eq!(get(&merged, "x").unwrap(), "2");
    assert_eq!(get(&merged, "y").unwrap(), "3");
    assert_eq!(traces.len(), 1);
    assert_eq!(traces[0].key, "x");
    assert_eq!(traces[0].old_value, "1");
    assert_eq!(traces[0].new_value, "2");
}

#[test]
fn user_merge_equal_values_trace_nothing() {
    let old = cfg_of(&[("x", "1")]);
    let new = cfg_of(&[("x", "1")]);
    let (merged, traces) = merge_user(&old, &new);
    assert_eq!(get(&merged, "x").unwrap(), "1");
    assert!(traces.is_empty());
}

#[test]
fn rendering_is_sorted_and_insertion_order_free() {
    let one = cfg_of(&[("b", "2"), ("a", "1")]);
    let other = cfg_of(&[("a", "1"), ("b", "2")]);
    let expected = "set a 1\nset b 2\n";
    assert_eq!(render_config(&one), expected);
    assert_eq!(render_config(&other), expected);
    assert_eq!(render_config(&one), render_config(&one));
}

#[test]
fn rendering_sorts_by_byte_order() {
    let cfg = cfg_of(&[("a", "2"), ("B", "1")]);
    assert_eq!(render_config(&cfg), "set B 1\nset a 2\n");
}

#[test]
fn rendering_empty_config_is_empty() {
    assert_eq!(render_config(&Config::new()), "");
}

#[test]
fn report_omits_empty_sections() {
    let user = cfg_of(&[("x", "2")]);
    let empty = Config::new();
    let report = render_report(&user, &empty, &empty);
    assert_eq!(report, "// Merged user config:\nset x 2\n");
}

#[test]
fn report_all_sections_in_order() {
    let user = cfg_of(&[("u", "1")]);
    let removed = cfg_of(&[("r", "2")]);
    let changed = cfg_of(&[("c", "3")]);
    let report = render_report(&user, &removed, &changed);
    let expected = format!(
        "// Merged user config:\nset u 1\n{}set r 2\n{}set c 3\n",
        REMOVED_HEADER, CHANGED_HEADER
    );
    assert_eq!(report, expected);
}

#[test]
fn load_missing_base_is_fatal() {
    assert_eq!(
        load_configurations(None, ReadOutcome::NotFound).err().unwrap(),
        LoadError::MissingBaseConfig
    );
}

#[test]
fn load_undecodable_base_is_fatal() {
    assert_eq!(
        load_configurations(Some(vec![0xff, 0x00]), ReadOutcome::NotFound).err().unwrap(),
        LoadError::BaseEncoding
    );
}

#[test]
fn load_undecodable_user_is_fatal() {
    let base = b"set a 1\n".to_vec();
    assert_eq!(
        load_configurations(Some(base), ReadOutcome::Present(vec![0xff])).err().unwrap(),
        LoadError::UserEncoding
    );
}

#[test]
fn load_absent_user_is_fine() {
    let base = b"set a 1\n".to_vec();
    let (cfgs, diags) = load_configurations(Some(base), ReadOutcome::NotFound).unwrap();
    assert_eq!(get(&cfgs.base, "a").unwrap(), "1");
    assert!(cfgs.user.is_none());
    assert!(diags.is_empty());
}

#[test]
fn load_unreadable_user_degrades_with_warning() {
    let base = b"set a 1\n".to_vec();
    let (cfgs, diags) = load_configurations(Some(base), ReadOutcome::Failed).unwrap();
    assert!(cfgs.user.is_none());
    assert_eq!(diags.len(), 1);
    assert_eq!(diags[0].role, FileRole::User);
    assert_eq!(diags[0].kind, LoadDiagKind::UnreadableUser);
}

#[test]
fn load_tags_parse_reports_with_their_file() {
    let base = b"odd line here\n".to_vec();
    let user = b"set a 1\nset a 2\n".to_vec();
    let (cfgs, diags) = load_configurations(Some(base), ReadOutcome::Present(user)).unwrap();
    assert_eq!(cfgs.base.len(), 0);
    assert_eq!(get(cfgs.user.as_ref().unwrap(), "a").unwrap(), "2");
    assert_eq!(diags.len(), 2);
    assert_eq!(diags[0].role, FileRole::Base);
    assert_eq!(diags[0].kind, LoadDiagKind::OddLine);
    assert_eq!(diags[0].text, "odd line here");
    assert_eq!(diags[1].role, FileRole::User);
    assert_eq!(diags[1].kind, LoadDiagKind::DuplicateKey);
    assert_eq!(diags[1].text, "a");
}

#[test]
fn end_to_end_changed_only() {
    let (old, _) = load_configurations(Some(b"set fov 60\n".to_vec()), ReadOutcome::NotFound)
        .unwrap();
    let (new, _) = load_configurations(
        Some(b"set fov 75\nset gamma 1\n".to_vec()),
        ReadOutcome::NotFound,
    )
    .unwrap();
    let report = process(old, new);
    let expected = format!("{}set fov 60\n", CHANGED_HEADER);
    assert_eq!(report.text, expected);
    assert!(report.merge_traces.is_empty());
    assert_eq!(report.diff_traces.len(), 1);
    assert_eq!(report.diff_traces[0].key, "fov");
    assert_eq!(report.diff_traces[0].old_value, "60");
    assert_eq!(report.diff_traces[0].new_value, "75");
    assert!(report.scrub_traces.is_empty());
}

#[test]
fn end_to_end_full_pipeline() {
    let old_base = b"set fov 60\nset gone 1\nset kept 5\n".to_vec();
    let old_user = b"set fov 80\nset mine 1\n".to_vec();
    let new_base = b"set fov 75\nset kept 5\n".to_vec();
    let new_user = b"set mine 2\n".to_vec();
    let (old, _) = load_configurations(Some(old_base), ReadOutcome::Present(old_user)).unwrap();
    let (new, _) = load_configurations(Some(new_base), ReadOutcome::Present(new_user)).unwrap();
    let report = process(old, new);
    // The user overrides fov, so the base-level fov change is scrubbed;
    // `gone` was removed; `kept` is unchanged.
    let expected = format!(
        "// Merged user config:\nset fov 80\nset mine 2\n{}set gone 1\n",
        REMOVED_HEADER
    );
    assert_eq!(report.text, expected);
    assert_eq!(report.merge_traces.len(), 1);
    assert_eq!(report.merge_traces[0].key, "mine");
    assert_eq!(report.scrub_traces.len(), 1);
    assert_eq!(report.scrub_traces[0].key, "fov");
}

#[test]
fn config_operations_behave_like_a_map() {
    let mut cfg = Config::new();
    assert!(cfg.is_empty());
    assert!(!cfg.insert("k".to_string(), "1".to_string()));
    assert!(cfg.insert("k".to_string(), "2".to_string()));
    assert_eq!(cfg.len(), 1);
    assert_eq!(get(&cfg, "k").unwrap(), "2");
    assert!(cfg.remove(&"k".to_string()));
    assert!(!cfg.remove(&"k".to_string()));
    assert!(cfg.is_empty());
    assert!(get(&cfg, "k").is_none());
}

#[test]
fn configurations_bundle_keeps_both_files() {
    let base = b"set a 1\n".to_vec();
    let user = b"set b 2\n".to_vec();
    let (cfgs, diags) = load_configurations(Some(base), ReadOutcome::Present(user)).unwrap();
    let Configurations { base, user } = cfgs;
    assert_eq!(get(&base, "a").unwrap(), "1");
    assert_eq!(get(user.as_ref().unwrap(), "b").unwrap(), "2");
    assert!(diags.is_empty());
}
