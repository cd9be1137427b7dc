//! Building one install's configuration bundle from what the edge read.
//!
//! The caller reads the files (trying the canonical base-file name and
//! then its all-lowercase variant) and hands the raw outcomes in: the
//! base bytes are mandatory, the user file may be absent. A user file
//! that could not be read for another reason degrades to a warning; a
//! user file that exists but does not decode is fatal, as is a base
//! file that does not decode or cannot be read at all.

use vstd::prelude::*;

use crate::config::Config;
use crate::parse::{diag_views, parse_config, parse_result, ParseDiag, ParseDiagKind};

verus! {

/// What reading one optional file at the directory edge yielded.
pub enum ReadOutcome {
    /// The file was read; these are its bytes.
    Present(Vec<u8>),
    /// The file does not exist.
    NotFound,
    /// The file could not be read for another reason.
    Failed,
}

/// The two configuration files of one install.
pub struct Configurations {
    pub base: Config,
    pub user: Option<Config>,
}

impl Configurations {
    pub open spec fn wf(&self) -> bool {
        &&& self.base.wf()
        &&& match self.user {
            Some(u) => u.wf(),
            None => true,
        }
    }

    /// The user-override map, empty when the file is absent.
    pub open spec fn user_map(&self) -> Map<Seq<char>, Seq<char>> {
        match self.user {
            Some(u) => u@,
            None => Map::empty(),
        }
    }

    /// The user-override entries, empty when the file is absent.
    pub open spec fn user_kvs(&self) -> Seq<(Seq<char>, Seq<char>)> {
        match self.user {
            Some(u) => u.kvs(),
            None => Seq::empty(),
        }
    }
}

/// A fatal failure while loading one install's configurations.
#[derive(Clone, Copy, PartialEq, Eq, Structural, Debug)]
pub enum LoadError {
    /// Neither name variant of the base file could be read.
    MissingBaseConfig,
    /// The base file is not valid text.
    BaseEncoding,
    /// The user file exists but is not valid text.
    UserEncoding,
}

/// Which file a load-time report concerns.
#[derive(Clone, Copy, PartialEq, Eq, Structural, Debug)]
pub enum FileRole {
    Base,
    User,
}

#[derive(Clone, Copy, PartialEq, Eq, Structural, Debug)]
pub enum LoadDiagKind {
    OddLine,
    DuplicateKey,
    UnreadableUser,
}

/// A non-fatal report from loading one install.
pub struct LoadDiag {
    pub role: FileRole,
    pub kind: LoadDiagKind,
    pub text: String,
}

impl View for LoadDiag {
    type V = (FileRole, LoadDiagKind, Seq<char>);

    open spec fn view(&self) -> (FileRole, LoadDiagKind, Seq<char>) {
        (self.role, self.kind, self.text@)
    }
}

pub open spec fn load_diag_views(ds: Seq<LoadDiag>) -> Seq<(FileRole, LoadDiagKind, Seq<char>)> {
    ds.map_values(|d: LoadDiag| d@)
}

pub open spec fn lift_kind(k: ParseDiagKind) -> LoadDiagKind {
    match k {
        ParseDiagKind::OddLine => LoadDiagKind::OddLine,
        ParseDiagKind::DuplicateKey => LoadDiagKind::DuplicateKey,
    }
}

/// Parse reports attributed to the file they came from.
pub open spec fn tag_diags(role: FileRole, ds: Seq<(ParseDiagKind, Seq<char>)>) -> Seq<
    (FileRole, LoadDiagKind, Seq<char>),
> {
    ds.map_values(|d: (ParseDiagKind, Seq<char>)| (role, lift_kind(d.0), d.1))
}

/// The one warning a present-but-unreadable user file produces.
pub open spec fn unreadable_user_diag() -> (FileRole, LoadDiagKind, Seq<char>) {
    (FileRole::User, LoadDiagKind::UnreadableUser, Seq::<char>::empty())
}

fn push_tagged(out: &mut Vec<LoadDiag>, role: FileRole, ds: &Vec<ParseDiag>)
    ensures
        load_diag_views(final(out)@) == load_diag_views(old(out)@) + tag_diags(
            role,
            diag_views(ds@),
        ),
{
    let ghost base = load_diag_views(out@);
    let n = ds.len();
    proof {
        assert(load_diag_views(out@) =~= base + tag_diags(role, diag_views(ds@.take(0))));
    }
    for i in 0..n
        invariant
            n == ds@.len(),
            load_diag_views(out@) == base + tag_diags(role, diag_views(ds@.take(i as int))),
    {
        let ghost prev = load_diag_views(out@);
        let kind = match ds[i].kind {
            ParseDiagKind::OddLine => LoadDiagKind::OddLine,
            ParseDiagKind::DuplicateKey => LoadDiagKind::DuplicateKey,
        };
        let d = LoadDiag { role, kind, text: ds[i].text.clone() };
        out.push(d);
        proof {
            assert(diag_views(ds@.take(i + 1)).drop_last() =~= diag_views(ds@.take(i as int)));
            assert(diag_views(ds@.take(i + 1)).last() == (ds@[i as int].kind, ds@[i as int].text@));
            assert(tag_diags(role, diag_views(ds@.take(i + 1))) =~= tag_diags(
                role,
                diag_views(ds@.take(i as int)),
            ).push((role, lift_kind(ds@[i as int].kind), ds@[i as int].text@)));
            assert(load_diag_views(out@) =~= prev.push(
                (role, lift_kind(ds@[i as int].kind), ds@[i as int].text@),
            ));
        }
    }
    proof {
        assert(ds@.take(n as int) =~= ds@);
    }
}

/// Assembles one install's configurations from the raw read outcomes:
/// `base` holds the base file's bytes if either name variant could be
/// read, `user` is the outcome of reading the user file.
pub fn load_configurations(base: Option<Vec<u8>>, user: ReadOutcome) -> (r: Result<
    (Configurations, Vec<LoadDiag>),
    LoadError,
>)
    ensures
        match base {
            None => r matches Err(e) && e == LoadError::MissingBaseConfig,
            Some(b) => {
                if !vstd::utf8::valid_utf8(b@) {
                    r matches Err(e) && e == LoadError::BaseEncoding
                } else {
                    let (bm, bds) = parse_result(vstd::utf8::decode_utf8(b@));
                    match user {
                        ReadOutcome::Present(u) => {
                            if !vstd::utf8::valid_utf8(u@) {
                                r matches Err(e) && e == LoadError::UserEncoding
                            } else {
                                let (um, uds) = parse_result(vstd::utf8::decode_utf8(u@));
                                r matches Ok((cfgs, ds)) && cfgs.wf() && cfgs.base@ == bm && (
                                cfgs.user matches Some(uc) && uc@ == um) && load_diag_views(ds@)
                                    == tag_diags(FileRole::Base, bds) + tag_diags(
                                    FileRole::User,
                                    uds,
                                )
                            }
                        },
                        ReadOutcome::NotFound => r matches Ok((cfgs, ds)) && cfgs.wf()
                            && cfgs.base@ == bm && cfgs.user is None && load_diag_views(ds@)
                            == tag_diags(FileRole::Base, bds),
                        ReadOutcome::Failed => r matches Ok((cfgs, ds)) && cfgs.wf() && cfgs.base@
                            == bm && cfgs.user is None && load_diag_views(ds@) == tag_diags(
                            FileRole::Base,
                            bds,
                        ).push(unreadable_user_diag()),
                    }
                }
            },
        },
{
    let base_bytes = match base {
        Some(b) => b,
        None => {
            return Err(LoadError::MissingBaseConfig);
        },
    };
    let (base_cfg, base_diags) = match parse_config(base_bytes.as_slice()) {
        Ok(p) => p,
        Err(_) => {
            return Err(LoadError::BaseEncoding);
        },
    };
    let mut diags: Vec<LoadDiag> = Vec::new();
    proof {
        assert(load_diag_views(diags@) =~= Seq::<(FileRole, LoadDiagKind, Seq<char>)>::empty());
    }
    push_tagged(&mut diags, FileRole::Base, &base_diags);
    proof {
        assert(load_diag_views(diags@) =~= tag_diags(FileRole::Base, diag_views(base_diags@)));
    }
    match user {
        ReadOutcome::Present(u) => {
            let (user_cfg, user_diags) = match parse_config(u.as_slice()) {
                Ok(p) => p,
                Err(_) => {
                    return Err(LoadError::UserEncoding);
                },
            };
            push_tagged(&mut diags, FileRole::User, &user_diags);
            Ok((Configurations { base: base_cfg, user: Some(user_cfg) }, diags))
        },
        ReadOutcome::NotFound => {
            Ok((Configurations { base: base_cfg, user: None }, diags))
        },
        ReadOutcome::Failed => {
            let d = LoadDiag {
                role: FileRole::User,
                kind: LoadDiagKind::UnreadableUser,
                text: String::new(),
            };
            diags.push(d);
            proof {
                assert(load_diag_views(diags@) =~= tag_diags(
                    FileRole::Base,
                    diag_views(base_diags@),
                ).push(unreadable_user_diag()));
            }
            Ok((Configurations { base: base_cfg, user: None }, diags))
        },
    }
}

} // verus!
