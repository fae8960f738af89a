//! The entity model: one `StartupEntry` per discovered autostart mechanism
//! instance, tagged with the `Source` that owns it.

use vstd::prelude::*;
use crate::text::{lower, trim, first_where, last_where, is_space};
use crate::text::{
    str_to_chars, chars_to_string, trim_chars, lower_chars, is_space_char,
    lemma_first_where_unique, lemma_last_where_unique,
};
use vstd::string::*;

verus! {

/// The two registry hives that hold run keys and approval records.
#[derive(Debug, Clone, Copy, PartialEq, Eq, Structural)]
pub enum RegistryHive {
    HKCU,
    HKLM,
}

/// Four-state enable flag of an entry.
#[derive(Debug, Clone, Copy, PartialEq, Eq, Structural)]
pub enum EnabledStatus {
    Enabled,
    Disabled,
    Manual,
    Unknown,
}

/// Whether the entry's program is currently running.
#[derive(Debug, Clone, Copy, PartialEq, Eq, Structural)]
pub enum RunState {
    Running,
    Stopped,
}

/// A point in time, as seconds and nanoseconds since the Unix epoch.
/// Plain integers so that every comparison and conversion is checked;
/// the presentation side turns it into calendar form.
#[derive(Debug, Clone, Copy, PartialEq, Eq, Structural)]
pub struct Timestamp {
    pub secs: i64,
    pub nanos: u32,
}

impl Timestamp {
    /// A timestamp is kept normalized: the nanosecond part never reaches
    /// a whole second.
    pub open spec fn wf(self) -> bool {
        self.nanos < 1_000_000_000
    }
}

/// The OS object an entry came from. Immutable after creation: it alone
/// identifies the mechanism, and every action is keyed on it.
#[derive(Debug, Clone, PartialEq, Eq)]
pub enum Source {
    RegistryRun { hive: RegistryHive, key_path: String },
    RegistryRunOnce { hive: RegistryHive, key_path: String },
    StartupFolder { path: String, is_common: bool },
    TaskScheduler { task_path: String },
    Service { service_name: String, command_line: String },
}

/// Ghost image of a `Source`: the same shape over character sequences.
#[verifier::ext_equal]
pub ghost enum SourceView {
    RegistryRun { hive: RegistryHive, key_path: Seq<char> },
    RegistryRunOnce { hive: RegistryHive, key_path: Seq<char> },
    StartupFolder { path: Seq<char>, is_common: bool },
    TaskScheduler { task_path: Seq<char> },
    Service { service_name: Seq<char>, command_line: Seq<char> },
}

impl View for Source {
    type V = SourceView;

    open spec fn view(&self) -> SourceView {
        match self {
            Source::RegistryRun { hive, key_path } => SourceView::RegistryRun {
                hive: *hive,
                key_path: key_path@,
            },
            Source::RegistryRunOnce { hive, key_path } => SourceView::RegistryRunOnce {
                hive: *hive,
                key_path: key_path@,
            },
            Source::StartupFolder { path, is_common } => SourceView::StartupFolder {
                path: path@,
                is_common: *is_common,
            },
            Source::TaskScheduler { task_path } => SourceView::TaskScheduler {
                task_path: task_path@,
            },
            Source::Service { service_name, command_line } => SourceView::Service {
                service_name: service_name@,
                command_line: command_line@,
            },
        }
    }
}

/// Numeric precedence of a source kind; the primary sort key.
pub open spec fn source_rank(s: SourceView) -> int {
    match s {
        SourceView::RegistryRun { .. } => 0,
        SourceView::RegistryRunOnce { .. } => 1,
        SourceView::StartupFolder { .. } => 2,
        SourceView::TaskScheduler { .. } => 3,
        SourceView::Service { .. } => 4,
    }
}

/// What `display_location` returns for each source kind.
pub open spec fn display_location_spec(s: SourceView) -> Seq<char> {
    match s {
        SourceView::RegistryRun { hive, key_path } => match hive {
            RegistryHive::HKCU => "HKCU\\"@ + key_path,
            RegistryHive::HKLM => "HKLM\\"@ + key_path,
        },
        SourceView::RegistryRunOnce { hive, key_path } => match hive {
            RegistryHive::HKCU => "HKCU\\"@ + key_path,
            RegistryHive::HKLM => "HKLM\\"@ + key_path,
        },
        SourceView::StartupFolder { is_common, .. } => if is_common {
            "Common Startup Folder"@
        } else {
            "User Startup Folder"@
        },
        SourceView::TaskScheduler { task_path } => "Task: "@ + task_path,
        SourceView::Service { command_line, .. } => command_line,
    }
}

impl Source {
    /// Fixed precedence of the source kind, the primary sort key of the
    /// entry list: run keys first, services last.
    pub fn sort_key(&self) -> (r: u8)
        ensures
            r as int == source_rank(self@),
    {
        match self {
            Source::RegistryRun { .. } => 0,
            Source::RegistryRunOnce { .. } => 1,
            Source::StartupFolder { .. } => 2,
            Source::TaskScheduler { .. } => 3,
            Source::Service { .. } => 4,
        }
    }

    /// A human-readable description of where the entry lives.
    pub fn display_location(&self) -> (r: String)
        ensures
            r@ == display_location_spec(self@),
    {
        match self {
            Source::RegistryRun { hive, key_path }
            | Source::RegistryRunOnce { hive, key_path } => {
                let mut r = match hive {
                    RegistryHive::HKCU => "HKCU\\".to_owned(),
                    RegistryHive::HKLM => "HKLM\\".to_owned(),
                };
                r.append(key_path.as_str());
                r
            },
            Source::StartupFolder { is_common, .. } => {
                if *is_common {
                    "Common Startup Folder".to_owned()
                } else {
                    "User Startup Folder".to_owned()
                }
            },
            Source::TaskScheduler { task_path } => {
                let mut r = "Task: ".to_owned();
                r.append(task_path.as_str());
                r
            },
            Source::Service { command_line, .. } => command_line.clone(),
        }
    }
}

/// One discovered autostart entry. The readers fill `name`, `command` and
/// `source`; the collector fills the rest during enrichment.
#[derive(Debug, Clone, PartialEq, Eq)]
pub struct StartupEntry {
    pub name: String,
    pub command: String,
    pub source: Source,
    pub enabled: EnabledStatus,
    pub run_state: RunState,
    pub last_ran: Option<Timestamp>,
    pub requires_admin: bool,
    pub runs_as: String,
    pub product_name: String,
}

/// Ghost image of a `StartupEntry`, with every string as its characters.
#[verifier::ext_equal]
pub ghost struct EntryView {
    pub name: Seq<char>,
    pub command: Seq<char>,
    pub source: SourceView,
    pub enabled: EnabledStatus,
    pub run_state: RunState,
    pub last_ran: Option<Timestamp>,
    pub requires_admin: bool,
    pub runs_as: Seq<char>,
    pub product_name: Seq<char>,
}

impl View for StartupEntry {
    type V = EntryView;

    open spec fn view(&self) -> EntryView {
        EntryView {
            name: self.name@,
            command: self.command@,
            source: self.source@,
            enabled: self.enabled,
            run_state: self.run_state,
            last_ran: self.last_ran,
            requires_admin: self.requires_admin,
            runs_as: self.runs_as@,
            product_name: self.product_name@,
        }
    }
}

impl DeepView for StartupEntry {
    type V = EntryView;

    open spec fn deep_view(&self) -> EntryView {
        self.view()
    }
}

/// The executable token of a trimmed command line: the quoted part if the
/// command starts with a quote, otherwise everything up to the first
/// whitespace.
pub open spec fn exe_token(t: Seq<char>) -> Seq<char>
    recommends
        t.len() > 0,
{
    if t[0] == '"' {
        let rest = t.drop_first();
        rest.subrange(0, first_where(rest, |c: char| c == '"'))
    } else {
        t.subrange(0, first_where(t, |c: char| is_space(c)))
    }
}

/// Everything after the last path separator.
pub open spec fn file_part(s: Seq<char>) -> Seq<char> {
    s.subrange(last_where(s, |c: char| c == '/' || c == '\\') + 1, s.len() as int)
}

/// The characters after the last path separator.
pub fn file_part_chars(tok: &Vec<char>) -> (f: Vec<char>)
    ensures
        f@ == file_part(tok@),
{
    let mut s: usize = tok.len();
    while s > 0 && !(tok[s - 1] == '/' || tok[s - 1] == '\\')
        invariant
            s <= tok.len(),
            forall|k: int| s <= k < tok@.len() ==> !(#[trigger] tok@[k] == '/' || tok@[k] == '\\'),
        decreases s,
    {
        s = s - 1;
    }
    proof {
        if s == 0 {
            lemma_last_where_unique(tok@, |c: char| c == '/' || c == '\\', -1);
        } else {
            lemma_last_where_unique(tok@, |c: char| c == '/' || c == '\\', s - 1);
        }
    }
    let mut f: Vec<char> = Vec::new();
    let mut k: usize = s;
    while k < tok.len()
        invariant
            s <= k <= tok@.len(),
            f@ == tok@.subrange(s as int, k as int),
        decreases tok.len() - k,
    {
        f.push(tok[k]);
        k = k + 1;
        assert(f@ =~= tok@.subrange(s as int, k as int));
    }
    proof {
        assert(f@ =~= file_part(tok@));
    }
    f
}

/// The file name of a path: what follows its last separator.
pub fn file_name_of(path: &str) -> (r: String)
    ensures
        r@ == file_part(path@),
{
    let chars = str_to_chars(path);
    let f = file_part_chars(&chars);
    chars_to_string(&f)
}

/// The lower-cased executable file name of a command line, if one can be
/// extracted: quoting and arguments are stripped, then path components.
pub open spec fn exe_name_spec(cmd: Seq<char>) -> Option<Seq<char>> {
    let t = trim(cmd);
    if t.len() == 0 {
        None
    } else {
        let f = file_part(exe_token(t));
        if f.len() == 0 {
            None
        } else {
            Some(lower(f))
        }
    }
}

/// Extracts the executable file name from a launch command: strips
/// surrounding whitespace, a quoted or whitespace-delimited first token,
/// then the directory part, and lower-cases what is left.
pub fn extract_exe_name(command: &str) -> (r: Option<String>)
    ensures
        r.deep_view() == exe_name_spec(command@),
{
    let chars = str_to_chars(command);
    let t = trim_chars(&chars);
    if t.len() == 0 {
        return None;
    }
    let tok: Vec<char> = if t[0] == '"' {
        let mut q: usize = 1;
        while q < t.len() && t[q] != '"'
            invariant
                1 <= q <= t.len(),
                forall|k: int| 1 <= k < q ==> t@[k] != '"',
            decreases t.len() - q,
        {
            q = q + 1;
        }
        proof {
            let rest = t@.drop_first();
            assert forall|k: int| 0 <= k < q - 1 implies rest[k] != '"' by {
                assert(rest[k] == t@[k + 1]);
            }
            if q < t@.len() {
                assert(rest[q - 1] == t@[q as int]);
            }
            lemma_first_where_unique(rest, |c: char| c == '"', q - 1);
        }
        let mut tok: Vec<char> = Vec::new();
        let mut k: usize = 1;
        while k < q
            invariant
                1 <= k <= q <= t.len(),
                tok@ == t@.drop_first().subrange(0, k - 1),
            decreases q - k,
        {
            tok.push(t[k]);
            k = k + 1;
            assert(tok@ =~= t@.drop_first().subrange(0, k - 1));
        }
        proof {
            assert(tok@ =~= exe_token(t@));
        }
        tok
    } else {
        let mut q: usize = 0;
        while q < t.len() && !is_space_char(t[q])
            invariant
                q <= t.len(),
                forall|k: int| 0 <= k < q ==> !is_space(#[trigger] t@[k]),
            decreases t.len() - q,
        {
            q = q + 1;
        }
        proof {
            lemma_first_where_unique(t@, |c: char| is_space(c), q as int);
        }
        let mut tok: Vec<char> = Vec::new();
        let mut k: usize = 0;
        while k < q
            invariant
                k <= q <= t.len(),
                tok@ == t@.subrange(0, k as int),
            decreases q - k,
        {
            tok.push(t[k]);
            k = k + 1;
            assert(tok@ =~= t@.subrange(0, k as int));
        }
        proof {
            assert(tok@ =~= exe_token(t@));
        }
        tok
    };
    let f = file_part_chars(&tok);
    if f.len() == 0 {
        return None;
    }
    let lowered = lower_chars(&f);
    Some(chars_to_string(&lowered))
}

/// How a service's account name is normalized for `runs_as`: blank and
/// the machine account read as `SYSTEM`, and a domain or authority
/// prefix is stripped.
pub open spec fn clean_account_name_spec(name: Seq<char>) -> Seq<char> {
    let t = trim(name);
    if t.len() == 0 {
        "SYSTEM"@
    } else if lower(t) == "localsystem"@ {
        "SYSTEM"@
    } else {
        t.subrange(last_where(t, |c: char| c == '\\') + 1, t.len() as int)
    }
}

/// Normalizes an account name as the services reader reports it.
pub fn clean_account_name(name: &str) -> (r: String)
    ensures
        r@ == clean_account_name_spec(name@),
{
    let chars = str_to_chars(name);
    let t = trim_chars(&chars);
    if t.len() == 0 {
        return "SYSTEM".to_owned();
    }
    let lowered = chars_to_string(&lower_chars(&t));
    if crate::text::str_eq(lowered.as_str(), "localsystem") {
        return "SYSTEM".to_owned();
    }
    let mut s: usize = t.len();
    while s > 0 && t[s - 1] != '\\'
        invariant
            s <= t.len(),
            forall|k: int| s <= k < t@.len() ==> #[trigger] t@[k] != '\\',
        decreases s,
    {
        s = s - 1;
    }
    proof {
        if s == 0 {
            lemma_last_where_unique(t@, |c: char| c == '\\', -1);
        } else {
            lemma_last_where_unique(t@, |c: char| c == '\\', s - 1);
        }
    }
    let mut out: Vec<char> = Vec::new();
    let mut k: usize = s;
    while k < t.len()
        invariant
            s <= k <= t@.len(),
            out@ == t@.subrange(s as int, k as int),
        decreases t.len() - k,
    {
        out.push(t[k]);
        k = k + 1;
        assert(out@ =~= t@.subrange(s as int, k as int));
    }
    chars_to_string(&out)
}

/// An installed application from the uninstall registry, as the
/// installed-software inventory lists it.
#[derive(Debug, Clone)]
pub struct InstalledApp {
    pub display_name: String,
    pub publisher: String,
    pub display_version: String,
    pub install_date: String,
    pub estimated_size_kb: u64,
    pub uninstall_string: String,
    pub modify_path: Option<String>,
    pub install_location: String,
}

impl StartupEntry {
    /// A fresh entry from a reader: only identity fields are set, every
    /// enrichment field starts at its default.
    pub fn new(name: String, command: String, source: Source) -> (r: Self)
        ensures
            r@ == (EntryView {
                name: name@,
                command: command@,
                source: source@,
                enabled: EnabledStatus::Unknown,
                run_state: RunState::Stopped,
                last_ran: None::<Timestamp>,
                requires_admin: false,
                runs_as: Seq::<char>::empty(),
                product_name: Seq::<char>::empty(),
            }),
    {
        StartupEntry {
            name,
            command,
            source,
            enabled: EnabledStatus::Unknown,
            run_state: RunState::Stopped,
            last_ran: None,
            requires_admin: false,
            runs_as: String::new(),
            product_name: String::new(),
        }
    }

    /// The lower-cased executable file name of this entry's command.
    pub fn exe_name(&self) -> (r: Option<String>)
        ensures
            r.deep_view() == exe_name_spec(self.command@),
    {
        extract_exe_name(self.command.as_str())
    }
}

} // verus!
