//! Command-line parameters: common flags, `--config-dir`, and the restart command line.
use vstd::prelude::*;
use crate::text::{str_eq, starts_with, starts_with_exec, chars_of, slice_vec, string_of};
use crate::file_util::{expand_tilde_home_dir, expand_tilde_spec, path_join, path_join_exec};
use crate::known_exception::{strs_view, strings_view};

verus! {

pub struct CommonParams {
    pub project_locking: bool,
    pub location_save: bool,
    pub no_team: bool,
    pub tokenizer_source: Option<String>,
    pub tokenizer_target: Option<String>,
}

pub ghost struct CommonParamsView {
    pub project_locking: bool,
    pub location_save: bool,
    pub no_team: bool,
    pub tokenizer_source: Option<Seq<char>>,
    pub tokenizer_target: Option<Seq<char>>,
}

pub open spec fn opt_string_view(o: Option<String>) -> Option<Seq<char>> {
    match o {
        Some(s) => Some(s@),
        None => None,
    }
}

impl View for CommonParams {
    type V = CommonParamsView;

    open spec fn view(&self) -> CommonParamsView {
        CommonParamsView {
            project_locking: self.project_locking,
            location_save: self.location_save,
            no_team: self.no_team,
            tokenizer_source: opt_string_view(self.tokenizer_source),
            tokenizer_target: opt_string_view(self.tokenizer_target),
        }
    }
}

pub open spec fn default_common() -> CommonParamsView {
    CommonParamsView {
        project_locking: true,
        location_save: true,
        no_team: false,
        tokenizer_source: None,
        tokenizer_target: None,
    }
}

impl Default for CommonParams {
    fn default() -> (r: Self)
        ensures
            r@ == default_common(),
    {
        CommonParams {
            project_locking: true,
            location_save: true,
            no_team: false,
            tokenizer_source: None,
            tokenizer_target: None,
        }
    }
}

/// Flags from position `i` on applied to `p`.
pub open spec fn common_from(flags: Seq<Seq<char>>, i: int, p: CommonParamsView) -> CommonParamsView
    decreases flags.len() + 1 - i,
{
    if i < 0 || i >= flags.len() {
        p
    } else {
        let f = flags[i];
        if f == "--no-project-locking"@ || f == "--disable-project-locking"@ {
            common_from(flags, i + 1, CommonParamsView { project_locking: false, ..p })
        } else if f == "--no-location-save"@ || f == "--disable-location-save"@ {
            common_from(flags, i + 1, CommonParamsView { location_save: false, ..p })
        } else if f == "--no-team"@ {
            common_from(flags, i + 1, CommonParamsView { no_team: true, ..p })
        } else if f == "--team"@ {
            common_from(flags, i + 1, CommonParamsView { no_team: false, ..p })
        } else if f == "--ITokenizer"@ {
            if i + 1 < flags.len() {
                common_from(flags, i + 2, CommonParamsView { tokenizer_source: Some(flags[i + 1]), ..p })
            } else {
                common_from(flags, i + 1, p)
            }
        } else if f == "--ITokenizerTarget"@ {
            if i + 1 < flags.len() {
                common_from(flags, i + 2, CommonParamsView { tokenizer_target: Some(flags[i + 1]), ..p })
            } else {
                common_from(flags, i + 1, p)
            }
        } else if f == "--config-dir"@ {
            common_from(flags, i + 2, p)
        } else {
            common_from(flags, i + 1, p)
        }
    }
}

/// Applies the common flags to the defaults; unknown flags are ignored and
/// `--config-dir` skips its value.
pub fn parse_common_params(flags: &[&str]) -> (r: CommonParams)
    ensures
        r@ == common_from(strs_view(flags@), 0, default_common()),
{
    let ghost fv = strs_view(flags@);
    let mut p = CommonParams::default();
    let mut i: usize = 0;
    while i < flags.len()
        invariant
            i <= flags.len(),
            fv == strs_view(flags@),
            common_from(fv, 0, default_common()) == common_from(fv, i as int, p@),
        decreases flags.len() + 1 - i,
    {
        let f = flags[i];
        if str_eq(f, "--no-project-locking") || str_eq(f, "--disable-project-locking") {
            p.project_locking = false;
        } else if str_eq(f, "--no-location-save") || str_eq(f, "--disable-location-save") {
            p.location_save = false;
        } else if str_eq(f, "--no-team") {
            p.no_team = true;
        } else if str_eq(f, "--team") {
            p.no_team = false;
        } else if str_eq(f, "--ITokenizer") {
            if i + 1 < flags.len() {
                p.tokenizer_source = Some(flags[i + 1].to_owned());
                i = i + 1;
            }
        } else if str_eq(f, "--ITokenizerTarget") {
            if i + 1 < flags.len() {
                p.tokenizer_target = Some(flags[i + 1].to_owned());
                i = i + 1;
            }
        } else if str_eq(f, "--config-dir") {
            if i + 1 < flags.len() {
                i = i + 1;
            } else {
                assert(common_from(fv, i + 2, p@) == p@);
                assert(common_from(fv, flags.len() as int, p@) == p@);
                i = flags.len() - 1;
            }
        }
        i = i + 1;
    }
    p
}

/// Value of the first non-empty `--config-dir X` or `--config-dir=X` from position `i` on.
pub open spec fn config_dir_from(args: Seq<Seq<char>>, i: int) -> Option<Seq<char>>
    decreases args.len() + 1 - i,
{
    if i < 0 || i >= args.len() {
        None
    } else {
        let a = args[i];
        let prefix = "--config-dir="@;
        let value: Option<Seq<char>> = if a == "--config-dir"@ {
            if i + 1 < args.len() { Some(args[i + 1]) } else { None }
        } else if starts_with(a, prefix) {
            Some(a.subrange(prefix.len() as int, a.len() as int))
        } else {
            None
        };
        match value {
            Some(v) => if v.len() > 0 { Some(v) } else { config_dir_from(args, i + 1) },
            None => config_dir_from(args, i + 1),
        }
    }
}

/// `--config-dir` value; an empty value counts as absent.
pub fn extract_config_dir(args: &[&str]) -> (r: Option<String>)
    ensures
        opt_string_view(r) == config_dir_from(strs_view(args@), 0),
{
    let ghost av = strs_view(args@);
    let prefix = chars_of("--config-dir=");
    let mut i: usize = 0;
    while i < args.len()
        invariant
            i <= args.len(),
            av == strs_view(args@),
            prefix@ == "--config-dir="@,
            config_dir_from(av, 0) == config_dir_from(av, i as int),
        decreases args.len() - i,
    {
        let a = chars_of(args[i]);
        let value: Option<Vec<char>> = if str_eq(args[i], "--config-dir") {
            if i + 1 < args.len() { Some(chars_of(args[i + 1])) } else { None }
        } else if starts_with_exec(&a, &prefix) {
            Some(slice_vec(&a, prefix.len(), a.len()))
        } else {
            None
        };
        match value {
            Some(v) => {
                if v.len() > 0 {
                    return Some(string_of(&v));
                }
            },
            None => {},
        }
        i = i + 1;
    }
    None
}

pub struct RuntimePrefs {
    pub config_dir: Option<String>,
    pub config_file: Option<String>,
    pub resource_bundle: Option<String>,
    pub project_locking: bool,
    pub location_save: bool,
    pub no_team: bool,
    pub quiet: bool,
    pub tokenizer_source: Option<String>,
    pub tokenizer_target: Option<String>,
    pub alternate_filename_from: Option<String>,
    pub alternate_filename_to: Option<String>,
}

pub ghost struct RuntimePrefsView {
    pub config_dir: Option<Seq<char>>,
    pub config_file: Option<Seq<char>>,
    pub resource_bundle: Option<Seq<char>>,
    pub project_locking: bool,
    pub location_save: bool,
    pub no_team: bool,
    pub quiet: bool,
    pub tokenizer_source: Option<Seq<char>>,
    pub tokenizer_target: Option<Seq<char>>,
    pub alternate_filename_from: Option<Seq<char>>,
    pub alternate_filename_to: Option<Seq<char>>,
}

impl View for RuntimePrefs {
    type V = RuntimePrefsView;

    open spec fn view(&self) -> RuntimePrefsView {
        RuntimePrefsView {
            config_dir: opt_string_view(self.config_dir),
            config_file: opt_string_view(self.config_file),
            resource_bundle: opt_string_view(self.resource_bundle),
            project_locking: self.project_locking,
            location_save: self.location_save,
            no_team: self.no_team,
            quiet: self.quiet,
            tokenizer_source: opt_string_view(self.tokenizer_source),
            tokenizer_target: opt_string_view(self.tokenizer_target),
            alternate_filename_from: opt_string_view(self.alternate_filename_from),
            alternate_filename_to: opt_string_view(self.alternate_filename_to),
        }
    }
}

pub open spec fn default_runtime() -> RuntimePrefsView {
    RuntimePrefsView {
        config_dir: None,
        config_file: None,
        resource_bundle: None,
        project_locking: true,
        location_save: true,
        no_team: false,
        quiet: false,
        tokenizer_source: None,
        tokenizer_target: None,
        alternate_filename_from: None,
        alternate_filename_to: None,
    }
}

impl Default for RuntimePrefs {
    fn default() -> (r: Self)
        ensures
            r@ == default_runtime(),
    {
        RuntimePrefs {
            config_dir: None,
            config_file: None,
            resource_bundle: None,
            project_locking: true,
            location_save: true,
            no_team: false,
            quiet: false,
            tokenizer_source: None,
            tokenizer_target: None,
            alternate_filename_from: None,
            alternate_filename_to: None,
        }
    }
}

pub open spec fn opt_arg(flag: Seq<char>, v: Option<Seq<char>>) -> Seq<Seq<char>> {
    match v {
        Some(x) => seq![flag, x],
        None => Seq::empty(),
    }
}

pub open spec fn flag_if(flag: Seq<char>, b: bool) -> Seq<Seq<char>> {
    if b { seq![flag] } else { Seq::empty() }
}

/// The restart command line for the given runtime preferences.
pub open spec fn command_spec(p: RuntimePrefsView) -> Seq<Seq<char>> {
    opt_arg("--config-dir"@, p.config_dir) + opt_arg("--config-file"@, p.config_file)
        + opt_arg("--resource-bundle"@, p.resource_bundle)
        + flag_if("--disable-project-locking"@, !p.project_locking)
        + flag_if("--disable-location-save"@, !p.location_save)
        + flag_if("--no-team"@, p.no_team)
        + seq!["start"@]
        + flag_if("--quiet"@, p.quiet)
        + opt_arg("--ITokenizer"@, p.tokenizer_source)
        + opt_arg("--ITokenizerTarget"@, p.tokenizer_target)
        + (if p.alternate_filename_from is Some && p.alternate_filename_to is Some {
            seq!["--alternate-filename-from"@, p.alternate_filename_from.unwrap(),
                "--alternate-filename-to"@, p.alternate_filename_to.unwrap()]
        } else {
            Seq::empty()
        })
}

fn push_opt(command: &mut Vec<String>, flag: &str, v: &Option<String>)
    ensures
        strings_view(final(command)@) == strings_view(old(command)@) + opt_arg(flag@, opt_string_view(*v)),
{
    let ghost before = strings_view(command@);
    match v {
        Some(x) => {
            command.push(flag.to_owned());
            command.push(x.clone());
            assert(strings_view(command@) =~= before + opt_arg(flag@, opt_string_view(*v)));
        },
        None => {
            assert(strings_view(command@) =~= before + opt_arg(flag@, opt_string_view(*v)));
        },
    }
}

fn push_flag(command: &mut Vec<String>, flag: &str, b: bool)
    ensures
        strings_view(final(command)@) == strings_view(old(command)@) + flag_if(flag@, b),
{
    let ghost before = strings_view(command@);
    if b {
        command.push(flag.to_owned());
    }
    assert(strings_view(command@) =~= before + flag_if(flag@, b));
}

pub fn construct_command_params(p: &RuntimePrefs) -> (r: Vec<String>)
    ensures
        strings_view(r@) == command_spec(p@),
{
    let mut command: Vec<String> = Vec::new();
    assert(strings_view(command@) =~= Seq::<Seq<char>>::empty());
    push_opt(&mut command, "--config-dir", &p.config_dir);
    push_opt(&mut command, "--config-file", &p.config_file);
    push_opt(&mut command, "--resource-bundle", &p.resource_bundle);
    push_flag(&mut command, "--disable-project-locking", !p.project_locking);
    push_flag(&mut command, "--disable-location-save", !p.location_save);
    push_flag(&mut command, "--no-team", p.no_team);
    push_flag(&mut command, "start", true);
    push_flag(&mut command, "--quiet", p.quiet);
    push_opt(&mut command, "--ITokenizer", &p.tokenizer_source);
    push_opt(&mut command, "--ITokenizerTarget", &p.tokenizer_target);
    let ghost before = strings_view(command@);
    match (&p.alternate_filename_from, &p.alternate_filename_to) {
        (Some(from), Some(to)) => {
            command.push("--alternate-filename-from".to_owned());
            command.push(from.clone());
            command.push("--alternate-filename-to".to_owned());
            command.push(to.clone());
        },
        _ => {},
    }
    assert(strings_view(command@) =~= command_spec(p@));
    command
}

/// Legacy flags from position `i` on applied to `p`.
pub open spec fn legacy_from(args: Seq<Seq<char>>, i: int, p: RuntimePrefsView, home: Option<Seq<char>>) -> RuntimePrefsView
    decreases args.len() + 1 - i,
{
    if i < 0 || i >= args.len() {
        p
    } else {
        let a = args[i];
        let prefix = "--config-dir="@;
        if a == "--config-dir"@ {
            if i + 1 < args.len() && args[i + 1].len() > 0 {
                legacy_from(args, i + 2, RuntimePrefsView { config_dir: Some(expand_tilde_spec(args[i + 1], home)), ..p }, home)
            } else {
                legacy_from(args, i + 1, p, home)
            }
        } else if starts_with(a, prefix) {
            let v = a.subrange(prefix.len() as int, a.len() as int);
            if v.len() > 0 {
                legacy_from(args, i + 1, RuntimePrefsView { config_dir: Some(expand_tilde_spec(v, home)), ..p }, home)
            } else {
                legacy_from(args, i + 1, p, home)
            }
        } else if a == "--config-file"@ {
            if i + 1 < args.len() {
                legacy_from(args, i + 2, RuntimePrefsView { config_file: Some(args[i + 1]), ..p }, home)
            } else {
                legacy_from(args, i + 1, p, home)
            }
        } else if a == "--resource-bundle"@ {
            if i + 1 < args.len() {
                legacy_from(args, i + 2, RuntimePrefsView { resource_bundle: Some(args[i + 1]), ..p }, home)
            } else {
                legacy_from(args, i + 1, p, home)
            }
        } else if a == "--disable-project-locking"@ {
            legacy_from(args, i + 1, RuntimePrefsView { project_locking: false, ..p }, home)
        } else if a == "--disable-location-save"@ {
            legacy_from(args, i + 1, RuntimePrefsView { location_save: false, ..p }, home)
        } else if a == "--no-team"@ {
            legacy_from(args, i + 1, RuntimePrefsView { no_team: true, ..p }, home)
        } else if a == "--quiet"@ {
            legacy_from(args, i + 1, RuntimePrefsView { quiet: true, ..p }, home)
        } else {
            legacy_from(args, i + 1, p, home)
        }
    }
}

/// Applies legacy flags onto default runtime preferences; `~/` in the
/// configuration directory is resolved against `home`.
pub fn initialize_legacy(args: &[&str], home: Option<&str>) -> (r: RuntimePrefs)
    ensures
        r@ == legacy_from(strs_view(args@), 0, default_runtime(), match home { Some(h) => Some(h@), None => None }),
{
    let ghost av = strs_view(args@);
    let ghost hv: Option<Seq<char>> = match home { Some(h) => Some(h@), None => None };
    let prefix = chars_of("--config-dir=");
    let mut p = RuntimePrefs::default();
    let mut i: usize = 0;
    while i < args.len()
        invariant
            i <= args.len() + 1,
            av == strs_view(args@),
            hv == (match home { Some(h) => Some(h@), None => None::<Seq<char>> }),
            prefix@ == "--config-dir="@,
            legacy_from(av, 0, default_runtime(), hv) == legacy_from(av, i as int, p@, hv),
        decreases args.len() + 1 - i,
    {
        let a = chars_of(args[i]);
        if str_eq(args[i], "--config-dir") {
            if i + 1 < args.len() && !args[i + 1].is_empty() {
                p.config_dir = Some(expand_tilde_home_dir(args[i + 1], home));
                i = i + 1;
            }
        } else if starts_with_exec(&a, &prefix) {
            let v = slice_vec(&a, prefix.len(), a.len());
            if v.len() > 0 {
                let vs = string_of(&v);
                p.config_dir = Some(expand_tilde_home_dir(vs.as_str(), home));
            }
        } else if str_eq(args[i], "--config-file") {
            if i + 1 < args.len() {
                p.config_file = Some(args[i + 1].to_owned());
                i = i + 1;
            }
        } else if str_eq(args[i], "--resource-bundle") {
            if i + 1 < args.len() {
                p.resource_bundle = Some(args[i + 1].to_owned());
                i = i + 1;
            }
        } else if str_eq(args[i], "--disable-project-locking") {
            p.project_locking = false;
        } else if str_eq(args[i], "--disable-location-save") {
            p.location_save = false;
        } else if str_eq(args[i], "--no-team") {
            p.no_team = true;
        } else if str_eq(args[i], "--quiet") {
            p.quiet = true;
        }
        i = i + 1;
    }
    p
}

proof fn lemma_not_config_dir_eq(f: Seq<char>)
    requires
        f.len() >= 13,
        f[9] != 'd' || f[2] != 'c',
    ensures
        !starts_with(f, "--config-dir="@),
{
    reveal_strlit("--config-dir=");
    if starts_with(f, "--config-dir="@) {
        assert(f.subrange(0, 13)[9] == f[9]);
        assert(f.subrange(0, 13)[2] == f[2]);
    }
}

/// The flags of the restart command line are told apart by the legacy parser.
proof fn lemma_command_flags()
    ensures
        "--config-file"@ != "--config-dir"@,
        !starts_with("--config-file"@, "--config-dir="@),
        !starts_with("--config-dir"@, "--config-dir="@),
        "--resource-bundle"@ != "--config-dir"@ && "--resource-bundle"@ != "--config-file"@,
        !starts_with("--resource-bundle"@, "--config-dir="@),
        "--disable-project-locking"@ != "--config-dir"@ && "--disable-project-locking"@ != "--config-file"@
            && "--disable-project-locking"@ != "--resource-bundle"@,
        !starts_with("--disable-project-locking"@, "--config-dir="@),
        "--disable-location-save"@ != "--config-dir"@ && "--disable-location-save"@ != "--config-file"@
            && "--disable-location-save"@ != "--resource-bundle"@ && "--disable-location-save"@ != "--disable-project-locking"@,
        !starts_with("--disable-location-save"@, "--config-dir="@),
        "--no-team"@ != "--config-dir"@ && "--no-team"@ != "--config-file"@ && "--no-team"@ != "--resource-bundle"@
            && "--no-team"@ != "--disable-project-locking"@ && "--no-team"@ != "--disable-location-save"@,
        !starts_with("--no-team"@, "--config-dir="@),
        "start"@ != "--config-dir"@ && "start"@ != "--config-file"@ && "start"@ != "--resource-bundle"@
            && "start"@ != "--disable-project-locking"@ && "start"@ != "--disable-location-save"@ && "start"@ != "--no-team"@
            && "start"@ != "--quiet"@,
        !starts_with("start"@, "--config-dir="@),
        "--quiet"@ != "--config-dir"@ && "--quiet"@ != "--config-file"@ && "--quiet"@ != "--resource-bundle"@
            && "--quiet"@ != "--disable-project-locking"@ && "--quiet"@ != "--disable-location-save"@ && "--quiet"@ != "--no-team"@,
        !starts_with("--quiet"@, "--config-dir="@),
{
    reveal_strlit("--config-dir=");
    reveal_strlit("--config-dir");
    reveal_strlit("--config-file");
    reveal_strlit("--resource-bundle");
    reveal_strlit("--disable-project-locking");
    reveal_strlit("--disable-location-save");
    reveal_strlit("--no-team");
    reveal_strlit("start");
    reveal_strlit("--quiet");
    assert("--config-file"@[9] != "--config-dir"@[9]);
    lemma_not_config_dir_eq("--config-file"@);
    assert("--resource-bundle"@[2] != "--config-dir"@[2]);
    assert("--resource-bundle"@[2] != "--config-file"@[2]);
    lemma_not_config_dir_eq("--resource-bundle"@);
    assert("--disable-project-locking"@[2] != "--config-dir"@[2]);
    assert("--disable-project-locking"@[2] != "--resource-bundle"@[2]);
    lemma_not_config_dir_eq("--disable-project-locking"@);
    assert("--disable-location-save"@[10] != "--disable-project-locking"@[10]);
    assert("--disable-location-save"@[2] != "--config-dir"@[2]);
    assert("--disable-location-save"@[2] != "--resource-bundle"@[2]);
    lemma_not_config_dir_eq("--disable-location-save"@);
    assert("--no-team"@[2] != "--config-dir"@[2]);
    assert("--no-team"@[2] != "--resource-bundle"@[2]);
    assert("--no-team"@[2] != "--disable-location-save"@[2]);
    assert("start"@[0] != "--config-dir"@[0]);
    assert("start"@[0] != "--quiet"@[0]);
    assert("--quiet"@[2] != "--config-dir"@[2]);
    assert("--quiet"@[2] != "--resource-bundle"@[2]);
    assert("--quiet"@[2] != "--disable-location-save"@[2]);
    assert("--quiet"@[2] != "--no-team"@[2]);
}

proof fn lemma_read_config_dir(a: Seq<Seq<char>>, i: int, q: RuntimePrefsView, h: Option<Seq<char>>)
    requires
        0 <= i,
        i + 1 < a.len(),
        a[i] == "--config-dir"@,
        a[i + 1].len() > 0,
    ensures
        legacy_from(a, i, q, h) == legacy_from(a, i + 2, RuntimePrefsView { config_dir: Some(expand_tilde_spec(a[i + 1], h)), ..q }, h),
{
}

proof fn lemma_read_config_file(a: Seq<Seq<char>>, i: int, q: RuntimePrefsView, h: Option<Seq<char>>)
    requires
        0 <= i,
        i + 1 < a.len(),
        a[i] == "--config-file"@,
    ensures
        legacy_from(a, i, q, h) == legacy_from(a, i + 2, RuntimePrefsView { config_file: Some(a[i + 1]), ..q }, h),
{
    lemma_command_flags();
}

proof fn lemma_read_resource_bundle(a: Seq<Seq<char>>, i: int, q: RuntimePrefsView, h: Option<Seq<char>>)
    requires
        0 <= i,
        i + 1 < a.len(),
        a[i] == "--resource-bundle"@,
    ensures
        legacy_from(a, i, q, h) == legacy_from(a, i + 2, RuntimePrefsView { resource_bundle: Some(a[i + 1]), ..q }, h),
{
    lemma_command_flags();
}

proof fn lemma_read_flag(a: Seq<Seq<char>>, i: int, q: RuntimePrefsView, h: Option<Seq<char>>)
    requires
        0 <= i < a.len(),
        a[i] == "--disable-project-locking"@ || a[i] == "--disable-location-save"@ || a[i] == "--no-team"@
            || a[i] == "start"@ || a[i] == "--quiet"@,
    ensures
        a[i] == "--disable-project-locking"@ ==> legacy_from(a, i, q, h) == legacy_from(a, i + 1, RuntimePrefsView { project_locking: false, ..q }, h),
        a[i] == "--disable-location-save"@ ==> legacy_from(a, i, q, h) == legacy_from(a, i + 1, RuntimePrefsView { location_save: false, ..q }, h),
        a[i] == "--no-team"@ ==> legacy_from(a, i, q, h) == legacy_from(a, i + 1, RuntimePrefsView { no_team: true, ..q }, h),
        a[i] == "start"@ ==> legacy_from(a, i, q, h) == legacy_from(a, i + 1, q, h),
        a[i] == "--quiet"@ ==> legacy_from(a, i, q, h) == legacy_from(a, i + 1, RuntimePrefsView { quiet: true, ..q }, h),
{
    lemma_command_flags();
}

/// Law: reading back the restart command line with the legacy parser gives
/// the configuration folder and file, the resource bundle and the flags that
/// it was built from, for preferences with no tokenizers or alternate file
/// names and a configuration folder that is non-empty and not `~/`-relative.
#[verifier::rlimit(80)]
pub proof fn law_legacy_reads_command(p: RuntimePrefsView, home: Option<Seq<char>>)
    requires
        p.tokenizer_source is None,
        p.tokenizer_target is None,
        p.alternate_filename_from is None,
        p.alternate_filename_to is None,
        p.config_dir matches Some(d) ==> d.len() > 0 && !starts_with(d, seq!['~', '/']),
    ensures
        ({
            let q = legacy_from(command_spec(p), 0, default_runtime(), home);
            &&& q.config_dir == p.config_dir
            &&& q.config_file == p.config_file
            &&& q.resource_bundle == p.resource_bundle
            &&& q.project_locking == p.project_locking
            &&& q.location_save == p.location_save
            &&& q.no_team == p.no_team
            &&& q.quiet == p.quiet
        }),
{
    let a = command_spec(p);
    let s0 = opt_arg("--config-dir"@, p.config_dir);
    let s1 = opt_arg("--config-file"@, p.config_file);
    let s2 = opt_arg("--resource-bundle"@, p.resource_bundle);
    let s3 = flag_if("--disable-project-locking"@, !p.project_locking);
    let s4 = flag_if("--disable-location-save"@, !p.location_save);
    let s5 = flag_if("--no-team"@, p.no_team);
    let s7 = flag_if("--quiet"@, p.quiet);
    let n0 = s0.len() as int;
    let n1 = n0 + s1.len();
    let n2 = n1 + s2.len();
    let n3 = n2 + s3.len();
    let n4 = n3 + s4.len();
    let n5 = n4 + s5.len();
    assert(a =~= s0 + s1 + s2 + s3 + s4 + s5 + seq!["start"@] + s7);
    assert(a.subrange(0, n0) =~= s0);
    assert(a.subrange(n0, n1) =~= s1);
    assert(a.subrange(n1, n2) =~= s2);
    assert(a.subrange(n2, n3) =~= s3);
    assert(a.subrange(n3, n4) =~= s4);
    assert(a.subrange(n4, n5) =~= s5);
    assert(a[n5] == "start"@);
    assert(a.subrange(n5 + 1, a.len() as int) =~= s7);
    let d0 = default_runtime();
    let q0 = if p.config_dir is Some {
        RuntimePrefsView { config_dir: Some(expand_tilde_spec(p.config_dir.unwrap(), home)), ..d0 }
    } else { d0 };
    if p.config_dir is Some {
        assert(a.subrange(0, n0)[1] == a[1]);
        lemma_read_config_dir(a, 0, d0, home);
    }
    assert(q0.config_dir == p.config_dir);
    let q1 = RuntimePrefsView { config_file: p.config_file, ..q0 };
    if p.config_file is Some {
        assert(a.subrange(n0, n1)[0] == a[n0] && a.subrange(n0, n1)[1] == a[n0 + 1]);
        lemma_read_config_file(a, n0, q0, home);
    }
    let q2 = RuntimePrefsView { resource_bundle: p.resource_bundle, ..q1 };
    if p.resource_bundle is Some {
        assert(a.subrange(n1, n2)[0] == a[n1] && a.subrange(n1, n2)[1] == a[n1 + 1]);
        lemma_read_resource_bundle(a, n1, q1, home);
    }
    let q3 = RuntimePrefsView { project_locking: p.project_locking, ..q2 };
    if !p.project_locking {
        assert(a.subrange(n2, n3)[0] == a[n2]);
        lemma_read_flag(a, n2, q2, home);
    }
    let q4 = RuntimePrefsView { location_save: p.location_save, ..q3 };
    if !p.location_save {
        assert(a.subrange(n3, n4)[0] == a[n3]);
        lemma_read_flag(a, n3, q3, home);
    }
    let q5 = RuntimePrefsView { no_team: p.no_team, ..q4 };
    if p.no_team {
        assert(a.subrange(n4, n5)[0] == a[n4]);
        lemma_read_flag(a, n4, q4, home);
    }
    lemma_read_flag(a, n5, q5, home);
    let q7 = RuntimePrefsView { quiet: p.quiet, ..q5 };
    if p.quiet {
        assert(a.subrange(n5 + 1, a.len() as int)[0] == a[n5 + 1]);
        lemma_read_flag(a, n5 + 1, q5, home);
    }
    assert(legacy_from(a, a.len() as int, q7, home) == q7);
    assert(legacy_from(a, 0, d0, home) == q7);
}

/// `<config>/scripts`.
pub fn default_user_scripts_dir(config_dir: &str) -> (r: String)
    ensures
        r@ == path_join(config_dir@, "scripts"@),
{
    let c = chars_of(config_dir);
    let s = chars_of("scripts");
    let j = path_join_exec(&c, &s);
    string_of(&j)
}

} // verus!
