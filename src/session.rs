use vstd::prelude::*;
use vstd::string::StringExecFns;
use crate::diagnostics::Severity;
use crate::router::PolicyRouter;

verus! {

/// A workspace folder: its URI and display name.
pub struct WorkspaceFolder {
    pub uri: String,
    pub name: String,
}

pub open spec fn folder_view(f: WorkspaceFolder) -> (Seq<char>, Seq<char>) {
    (f.uri@, f.name@)
}

pub open spec fn folder_views(s: Seq<WorkspaceFolder>) -> Seq<(Seq<char>, Seq<char>)> {
    s.map_values(|f: WorkspaceFolder| folder_view(f))
}

/// `s` without the items that `removed` holds, order kept.
pub open spec fn without(
    s: Seq<(Seq<char>, Seq<char>)>,
    removed: Seq<(Seq<char>, Seq<char>)>,
) -> Seq<(Seq<char>, Seq<char>)>
    decreases s.len(),
{
    if s.len() == 0 {
        Seq::empty()
    } else {
        without(s.drop_last(), removed) + if removed.contains(s.last()) {
            Seq::empty()
        } else {
            seq![s.last()]
        }
    }
}

/// Text in lower case, as `str::to_lowercase` gives it.
pub uninterp spec fn lower_of(s: Seq<char>) -> Seq<char>;

/// Relies on str::to_lowercase, whose result depends on the text alone.
#[verifier::external_body]
fn lowercase(s: &str) -> (r: String)
    ensures
        r@ == lower_of(s@),
{
    s.to_lowercase()
}

/// What `shellexpand::tilde` may return for `s`: `s` itself, or, where `s`
/// is `~` or starts with `~/`, some home directory followed by the rest.
pub open spec fn home_expanded(s: Seq<char>, r: Seq<char>) -> bool {
    &&& !(s.len() > 0 && s[0] == '~') ==> r == s
    &&& (s.len() > 1 && s[0] == '~' && s[1] != '/' && s[1] != '\\') ==> r == s
    &&& (s.len() > 0 && s[0] == '~') ==> (r == s || exists|home: Seq<char>|
        r == home + s.drop_first())
}

/// Relies on shellexpand::tilde: a leading `~` (alone or before a path
/// separator) becomes the home directory when one is known; any other text
/// comes back as it was.
#[verifier::external_body]
fn expand_home(s: &str) -> (r: String)
    ensures
        home_expanded(s@, r@),
{
    shellexpand::tilde(s).to_string()
}

/// The severity named by a lower-case word.
pub open spec fn severity_named(s: Seq<char>) -> Option<Severity> {
    if s == "error"@ {
        Some(Severity::Error)
    } else if s == "warning"@ {
        Some(Severity::Warning)
    } else if s == "information"@ {
        Some(Severity::Information)
    } else if s == "hint"@ {
        Some(Severity::Hint)
    } else {
        None
    }
}

/// The severity named by `s`, a word already in lower case.
pub fn severity_from_lowercase(s: &str) -> (r: Option<Severity>)
    ensures
        r == severity_named(s@),
{
    let t = String::from_str(s);
    if t.eq(&String::from_str("error")) {
        Some(Severity::Error)
    } else if t.eq(&String::from_str("warning")) {
        Some(Severity::Warning)
    } else if t.eq(&String::from_str("information")) {
        Some(Severity::Information)
    } else if t.eq(&String::from_str("hint")) {
        Some(Severity::Hint)
    } else {
        None
    }
}

/// The severity named by `s` in any case.
pub fn parse_severity(s: &str) -> (r: Option<Severity>)
    ensures
        r == severity_named(lower_of(s@)),
{
    let l = lowercase(s);
    severity_from_lowercase(l.as_str())
}

fn same_folder(a: &WorkspaceFolder, b: &WorkspaceFolder) -> (r: bool)
    ensures
        r == (folder_view(*a) == folder_view(*b)),
{
    a.uri.eq(&b.uri) && a.name.eq(&b.name)
}

fn contains_folder(list: &Vec<WorkspaceFolder>, f: &WorkspaceFolder) -> (r: bool)
    ensures
        r == folder_views(list@).contains(folder_view(*f)),
{
    let mut i: usize = 0;
    while i < list.len()
        invariant
            i <= list@.len(),
            forall|j: int| 0 <= j < i ==> folder_view(#[trigger] list@[j]) != folder_view(*f),
        decreases list@.len() - i,
    {
        if same_folder(&list[i], f) {
            assert(folder_views(list@)[i as int] == folder_view(*f));
            return true;
        }
        i = i + 1;
    }
    assert forall|j: int| 0 <= j < folder_views(list@).len() implies folder_views(list@)[j]
        != folder_view(*f) by {
        assert(folder_view(list@[j]) != folder_view(*f));
    }
    false
}

/// Session-wide settings, the workspace folders and the routing table built
/// from them.
pub struct SessionState<T> {
    pub severity: Option<Severity>,
    pub config: Option<String>,
    pub workspace_folders: Vec<WorkspaceFolder>,
    pub router: PolicyRouter<T>,
}

impl<T> SessionState<T> {
    /// A session with no settings, no folders and an empty table.
    pub fn new() -> (r: Self)
        ensures
            r.severity.is_none(),
            r.config.is_none(),
            r.workspace_folders@.len() == 0,
            r.router.routes@.len() == 0,
    {
        SessionState {
            severity: None,
            config: None,
            workspace_folders: Vec::new(),
            router: PolicyRouter::new(),
        }
    }

    /// Applies the initialization options: a severity name in any case
    /// (an unknown one changes nothing and gives `false`), and a
    /// configuration path whose leading `~` is expanded.
    pub fn apply_options(&mut self, severity: Option<&str>, config: Option<&str>) -> (known: bool)
        ensures
            known == match severity {
                Some(v) => severity_named(lower_of(v@)) is Some,
                None => true,
            },
            final(self).severity == match severity {
                Some(v) => match severity_named(lower_of(v@)) {
                    Some(s) => Some(s),
                    None => old(self).severity,
                },
                None => old(self).severity,
            },
            match config {
                Some(v) => final(self).config matches Some(c) && home_expanded(v@, c@),
                None => final(self).config == old(self).config,
            },
            final(self).workspace_folders == old(self).workspace_folders,
            final(self).router == old(self).router,
    {
        let mut known = true;
        match severity {
            Some(v) => match parse_severity(v) {
                Some(s) => {
                    self.severity = Some(s);
                },
                None => {
                    known = false;
                },
            },
            None => {},
        }
        match config {
            Some(v) => {
                self.config = Some(expand_home(v));
            },
            None => {},
        }
        known
    }

    /// Replaces the folder list.
    pub fn set_workspace_folders(&mut self, workspace_folders: Vec<WorkspaceFolder>)
        ensures
            final(self).workspace_folders == workspace_folders,
            final(self).severity == old(self).severity,
            final(self).config == old(self).config,
            final(self).router == old(self).router,
    {
        self.workspace_folders = workspace_folders;
    }

    /// Appends `added` to the folder list, then drops every folder that
    /// `removed` holds.
    pub fn update_workspace_folders(
        &mut self,
        added: Vec<WorkspaceFolder>,
        removed: Vec<WorkspaceFolder>,
    )
        ensures
            folder_views(final(self).workspace_folders@) == without(
                folder_views(old(self).workspace_folders@) + folder_views(added@),
                folder_views(removed@),
            ),
            final(self).severity == old(self).severity,
            final(self).config == old(self).config,
            final(self).router == old(self).router,
    {
        let ghost all = folder_views(self.workspace_folders@) + folder_views(added@);
        let mut combined: Vec<WorkspaceFolder> = Vec::new();
        std::mem::swap(&mut combined, &mut self.workspace_folders);
        let mut added = added;
        combined.append(&mut added);
        assert(folder_views(combined@) =~= all);
        let mut kept: Vec<WorkspaceFolder> = Vec::new();
        let ghost mut i: int = 0;
        assert(all.subrange(0, 0) =~= Seq::<(Seq<char>, Seq<char>)>::empty());
        assert(all.subrange(0, all.len() as int) =~= all);
        while combined.len() > 0
            invariant
                0 <= i <= all.len(),
                i + combined@.len() == all.len(),
                folder_views(combined@) == all.subrange(i, all.len() as int),
                folder_views(kept@) == without(all.subrange(0, i), folder_views(removed@)),
            decreases combined@.len(),
        {
            let ghost fv = folder_view(combined@[0]);
            assert(fv == folder_views(combined@)[0]);
            assert(fv == all[i]);
            let f = combined.remove(0);
            let keep = !contains_folder(&removed, &f);
            let ghost kept_before = kept@;
            if keep {
                kept.push(f);
            }
            proof {
                i = i + 1;
            }
            assert(all.subrange(0, i).last() == fv);
            assert(all.subrange(0, i).drop_last() =~= all.subrange(0, i - 1));
            assert(all.subrange(i, all.len() as int) =~= all.subrange(i - 1, all.len() as int).drop_first());
            assert(folder_views(combined@) =~= all.subrange(i, all.len() as int));
            assert(folder_views(kept@) =~= without(all.subrange(0, i), folder_views(removed@)));
        }
        assert(all.subrange(0, i) =~= all);
        self.workspace_folders = kept;
    }

    /// Installs a freshly built table, or keeps the current one whole when
    /// the build failed: a lookup sees one complete table or the other.
    pub fn install_router(&mut self, built: Option<PolicyRouter<T>>)
        ensures
            match built {
                Some(r) => final(self).router == r,
                None => final(self).router == old(self).router,
            },
            final(self).severity == old(self).severity,
            final(self).config == old(self).config,
            final(self).workspace_folders == old(self).workspace_folders,
    {
        match built {
            Some(r) => {
                self.router = r;
            },
            None => {},
        }
    }
}

} // verus!
