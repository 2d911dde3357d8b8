//! What the launcher starts, and how.
use crate::apps::names::aumid_exe_token;
use crate::apps::pool::{device_path, is_device_path};
use crate::apps::targets::{exe_in_id, lemma_exe_in_id};
use crate::data_uri::{base64_text, encode_base64};
use crate::text::{
    ascii_word, chars_of, find_chars, find_text, is_ascii_word, lemma_find_text, lowercase, replaced_text, str_eq,
    str_replace, str_starts, str_trim, string_of, strip_start, text_at, text_starts, trimmed,
};
use crate::utf16::{code_units, le_bytes, utf16_le};
use crate::winpath::{parent, path_parent};
use vstd::prelude::*;

verus! {

/// How a path is started.
pub enum Launch {
    /// Not at all, for this reason.
    Refused(String),
    /// The shell opens this place.
    Shell(String),
    /// The shell opens this path, after a look at what stands there.
    Open(String),
    /// The path is handed to the system with this verb.
    Execute(String, String),
}

/// A path of a virtual namespace: a store application, a page of the settings,
/// a folder of the shell.
pub open spec fn virtual_path(p: Seq<char>) -> bool {
    text_starts(p, "aumid:"@) || text_starts(p, "ms-"@) || text_starts(p, "shell:::"@)
}

/// `l` is how a path is started with a verb. A virtual path is only ever
/// opened. A store application is opened in the shell's application folder.
pub open spec fn starts_as(l: Launch, path: Seq<char>, verb: Seq<char>) -> bool {
    let p = trimmed(path);
    if p.len() == 0 {
        l is Refused && l->Refused_0@ == "empty launch path"@
    } else if device_path(p) {
        l is Refused && l->Refused_0@ == "device paths are not launchable"@
    } else if text_starts(p, "aumid:"@) {
        l is Shell && l->Shell_0@ == "shell:appsFolder\\"@ + p.skip("aumid:"@.len() as int)
    } else if verb == "open"@ || virtual_path(p) {
        l is Open && l->Open_0@ == p
    } else {
        l is Execute && l->Execute_0@ == p && l->Execute_1@ == verb
    }
}

/// How a path is started with a verb.
pub fn launch_with_verb(path: &str, verb: &str) -> (r: Launch)
    ensures
        starts_as(r, path@, verb@),
{
    let p = str_trim(path);
    if p.as_str().is_empty() {
        return Launch::Refused("empty launch path".to_owned());
    }
    if is_device_path(p.as_str()) {
        return Launch::Refused("device paths are not launchable".to_owned());
    }
    match strip_start(p.as_str(), "aumid:") {
        Some(rest) => {
            let mut target = "shell:appsFolder\\".to_owned();
            target.push_str(rest.as_str());
            return Launch::Shell(target);
        },
        None => {},
    }
    if str_eq(verb, "open") || str_starts(p.as_str(), "ms-") || str_starts(p.as_str(), "shell:::") {
        Launch::Open(p)
    } else {
        Launch::Execute(p, verb.to_owned())
    }
}

/// What the shell is asked to open, by what stands at the path: a folder is
/// entered, a file is only selected, and what is not there is opened as it is.
pub open spec fn shell_argument(path: Seq<char>, is_dir: Option<bool>) -> Seq<char> {
    if is_dir == Some(false) {
        "/select,"@ + path
    } else {
        path
    }
}

/// What the shell is asked to open, by what stands at the path: `Some(true)` a
/// folder, `Some(false)` a file, `None` nothing.
pub fn explorer_arg(path: &str, is_dir: Option<bool>) -> (r: String)
    ensures
        r@ == shell_argument(path@, is_dir),
{
    match is_dir {
        Some(false) => {
            let mut out = "/select,".to_owned();
            out.push_str(path);
            out
        },
        _ => path.to_owned(),
    }
}

/// A file is never executed by opening it.
pub proof fn law_files_are_only_selected(path: Seq<char>)
    ensures
        text_starts(shell_argument(path, Some(false)), "/select,"@),
{
    let out = "/select,"@ + path;
    assert(out.subrange(0, "/select,"@.len() as int) =~= "/select,"@);
}

/// How a path is started with the rights of an administrator.
pub enum AdminLaunch {
    /// The package of this store application has to be elevated.
    Package(String),
    /// Like any path.
    Plain(Launch),
}

/// How a path is started with the rights of an administrator.
pub fn launch_admin(path: &str) -> (r: AdminLaunch)
    ensures
        text_starts(path@, "aumid:"@) ==> r is Package && r->Package_0@ == path@.skip(
            "aumid:"@.len() as int,
        ),
        !text_starts(path@, "aumid:"@) ==> r is Plain && starts_as(r->Plain_0, path@, "runas"@),
{
    match strip_start(path, "aumid:") {
        Some(rest) => AdminLaunch::Package(rest),
        None => AdminLaunch::Plain(launch_with_verb(path, "runas")),
    }
}

/// A character that a package family name may hold.
pub open spec fn family_char(c: char) -> bool {
    is_ascii_word(c) || c == '.' || c == '-' || c == '_'
}

/// A text that holds only what a package family name may hold.
pub open spec fn family_name(s: Seq<char>) -> bool {
    forall|i: int| 0 <= i < s.len() ==> family_char(#[trigger] s[i])
}

/// The package family of a store application: what stands before the `!` of its
/// id, else what the system maps the id to.
pub open spec fn family_of(id: Seq<char>, mapped: Option<String>) -> Seq<char> {
    let at = find_text(id, seq!['!'], 0);
    if at >= 0 {
        id.take(at)
    } else {
        match mapped {
            Some(m) => m@,
            None => Seq::empty(),
        }
    }
}

/// The first part of the script that elevates a package.
pub const SCRIPT_FAMILY: &'static str = "$p = Get-AppxPackage | Where-Object { $_.PackageFamilyName -eq '";

/// The part of the script between the family and the executable.
pub const SCRIPT_EXE: &'static str = "' } | Select-Object -First 1;\nif (-not $p -or -not $p.InstallLocation) { exit 1 }\n$exe = Get-ChildItem -Path $p.InstallLocation -Recurse -Filter '";

/// The last part of the script.
pub const SCRIPT_START: &'static str = "' -ErrorAction SilentlyContinue | Select-Object -First 1;\nif (-not $exe) { exit 1 }\nStart-Process -FilePath $exe.FullName -Verb RunAs";

/// The script that elevates the executable of a package.
pub open spec fn elevate_script(family: Seq<char>, exe: Seq<char>) -> Seq<char> {
    SCRIPT_FAMILY@ + family + SCRIPT_EXE@ + exe + SCRIPT_START@
}

/// How a package is elevated: the encoded script, and the words for its
/// failure.
pub struct Elevation {
    pub encoded: String,
    pub failure: String,
}

/// `r` is how the package of a store application is elevated, or why it cannot.
pub open spec fn elevates(
    r: Result<Elevation, String>,
    id: Seq<char>,
    mapped: Option<String>,
) -> bool {
    let family = family_of(id, mapped);
    match exe_in_id(id) {
        None => r is Err && r->Err_0@ == "'"@ + id + "' has no executable to elevate"@,
        Some(exe) => if family.len() == 0 {
            r is Err && r->Err_0@ == "no package mapping for '"@ + id + "'"@
        } else if !family_name(family) {
            r is Err && r->Err_0@ == "invalid package family name: '"@ + family + "'"@
        } else {
            &&& r is Ok
            &&& r->Ok_0.encoded@ == base64_text(le_bytes(code_units(elevate_script(family, exe))))
            &&& r->Ok_0.failure@ == "could not resolve '"@ + exe + "' in package "@ + family
        },
    }
}

/// Whether a text holds only what a package family name may hold.
fn is_family_name(s: &str) -> (r: bool)
    ensures
        r == family_name(s@),
{
    let c = chars_of(s);
    let mut i: usize = 0;
    while i < c.len()
        invariant
            i <= c.len(),
            c@ == s@,
            forall|k: int| 0 <= k < i ==> family_char(#[trigger] c@[k]),
        decreases c.len() - i,
    {
        if !(ascii_word(c[i]) || c[i] == '.' || c[i] == '-' || c[i] == '_') {
            assert(!family_char(s@[i as int]));
            return false;
        }
        i = i + 1;
    }
    true
}

/// A text between two others.
fn between(before: &str, middle: &str, after: &str) -> (r: String)
    ensures
        r@ == before@ + middle@ + after@,
{
    let mut out = before.to_owned();
    out.push_str(middle);
    out.push_str(after);
    out
}

/// How the package of a store application is elevated: its executable is looked
/// up in the package and started as administrator. `mapped` is what the system
/// maps the id to. A family name that holds anything unusual never reaches the
/// script.
pub fn launch_uwp_elevated(id: &str, mapped: &Option<String>) -> (r: Result<Elevation, String>)
    ensures
        elevates(r, id@, *mapped),
{
    proof {
        lemma_exe_in_id(id@);
    }
    let exe = match aumid_exe_token(id) {
        Some(e) => e,
        None => {
            return Err(between("'", id, "' has no executable to elevate"));
        },
    };
    assert(exe_in_id(id@) == Some(exe@));
    let c = chars_of(id);
    let mark: Vec<char> = vec!['!'];
    assert(mark@ =~= seq!['!']);
    let family = match find_chars(c.as_slice(), mark.as_slice(), 0) {
        Some(at) => {
            let f = string_of(&c.as_slice()[0..at]);
            assert(f@ =~= id@.take(at as int));
            f
        },
        None => match mapped {
            Some(m) => m.clone(),
            None => {
                let f = String::new();
                assert(f@ =~= Seq::<char>::empty());
                f
            },
        },
    };
    if family.as_str().is_empty() {
        return Err(between("no package mapping for '", id, "'"));
    }
    if !is_family_name(family.as_str()) {
        return Err(between("invalid package family name: '", family.as_str(), "'"));
    }
    let head = between(SCRIPT_FAMILY, family.as_str(), SCRIPT_EXE);
    let script = between(head.as_str(), exe.as_str(), SCRIPT_START);
    assert(script@ =~= elevate_script(family@, exe@));
    let bytes = utf16_le(script.as_str());
    let encoded = encode_base64(bytes.as_slice());
    let start = between("could not resolve '", exe.as_str(), "' in package ");
    let failure = between(start.as_str(), family.as_str(), "");
    proof {
        reveal_strlit("");
        assert(failure@ =~= "could not resolve '"@ + exe@ + "' in package "@ + family@);
    }
    Ok(Elevation { encoded, failure })
}

/// What the shell is asked to open for the place of a path: the application
/// folder for a store application, else the parent, or the path itself where it
/// has none.
pub open spec fn place_argument(path: Seq<char>) -> Seq<char> {
    if text_starts(path, "aumid:"@) {
        "shell:AppsFolder\\"@ + path.skip("aumid:"@.len() as int)
    } else if parent(path) is Some && parent(path)->0.len() > 0 {
        parent(path)->0
    } else {
        path
    }
}

/// What the shell is asked to open for the place of a path.
pub fn open_parent(path: &str) -> (r: String)
    ensures
        r@ == place_argument(path@),
{
    match strip_start(path, "aumid:") {
        Some(rest) => {
            let mut out = "shell:AppsFolder\\".to_owned();
            out.push_str(rest.as_str());
            return out;
        },
        None => {},
    }
    match path_parent(path) {
        Some(up) => {
            if up.as_str().is_empty() {
                path.to_owned()
            } else {
                up
            }
        },
        None => path.to_owned(),
    }
}

/// A hexadecimal digit of either case.
pub open spec fn is_hex(c: char) -> bool {
    '0' <= c <= '9' || 'a' <= c <= 'f' || 'A' <= c <= 'F'
}

/// A text of six hexadecimal digits.
pub open spec fn six_digits(s: Seq<char>) -> bool {
    s.len() == 6 && forall|i: int| 0 <= i < 6 ==> is_hex(#[trigger] s[i])
}

/// The accent color that a script printed, as `#rrggbb`, if it printed one.
pub fn printed_accent(stdout: &str) -> (r: Option<String>)
    ensures
        r is Some <==> six_digits(trimmed(stdout@)),
        r is Some ==> r->0@ == "#"@ + lowercase(trimmed(stdout@)),
{
    let t = str_trim(stdout);
    let c = chars_of(t.as_str());
    if c.len() != 6 {
        return None;
    }
    let mut i: usize = 0;
    while i < 6
        invariant
            i <= 6,
            c@ == t@,
            t@ == trimmed(stdout@),
            c.len() == 6,
            forall|k: int| 0 <= k < i ==> is_hex(#[trigger] c@[k]),
        decreases 6 - i,
    {
        let d = c[i];
        if !(('0' <= d && d <= '9') || ('a' <= d && d <= 'f') || ('A' <= d && d <= 'F')) {
            assert(!is_hex(t@[i as int]));
            return None;
        }
        i = i + 1;
    }
    let mut out = "#".to_owned();
    out.push_str(t.as_str().to_lowercase().as_str());
    Some(out)
}

/// A lowercase hexadecimal digit.
pub open spec fn low_hex(n: int) -> char {
    if n < 10 {
        (48 + n) as char
    } else {
        (87 + n) as char
    }
}

/// Two lowercase hexadecimal digits.
pub open spec fn hex_pair(n: int) -> Seq<char> {
    seq![low_hex(n / 16), low_hex(n % 16)]
}

/// The accent color in a registry value: alpha, blue, green and red from the
/// highest byte. There is none where alpha is zero.
pub open spec fn accent_of(color: u32) -> Option<Seq<char>> {
    if color / 0x100_0000 == 0 {
        None
    } else {
        Some(
            "#"@ + hex_pair(color as int % 256) + hex_pair(color as int / 256 % 256) + hex_pair(
                color as int / 65536 % 256,
            ),
        )
    }
}

/// A lowercase hexadecimal digit.
pub fn hex_char(n: u32) -> (r: char)
    requires
        n < 16,
    ensures
        r == low_hex(n as int),
{
    if n < 10 {
        (48 + n as u8) as char
    } else {
        (87 + n as u8) as char
    }
}

/// Appends two lowercase hexadecimal digits.
fn push_hex(out: &mut String, n: u32)
    requires
        n < 256,
    ensures
        final(out)@ == old(out)@ + hex_pair(n as int),
{
    out.push(hex_char(n / 16));
    out.push(hex_char(n % 16));
    assert(out@ =~= old(out)@ + hex_pair(n as int));
}

/// The accent color in a registry value, as `#rrggbb`.
pub fn stored_accent(color: u32) -> (r: Option<String>)
    ensures
        r is Some <==> accent_of(color) is Some,
        r is Some ==> r->0@ == accent_of(color)->0,
{
    if color / 0x100_0000 == 0 {
        return None;
    }
    let mut out = "#".to_owned();
    push_hex(&mut out, color % 256);
    push_hex(&mut out, color / 256 % 256);
    push_hex(&mut out, color / 65536 % 256);
    Some(out)
}

/// The task description without its power conditions.
pub open spec fn ungated(xml: Seq<char>) -> Seq<char> {
    replaced_text(
        replaced_text(
            xml,
            "<DisallowStartIfOnBatteries>true</DisallowStartIfOnBatteries>"@,
            "<DisallowStartIfOnBatteries>false</DisallowStartIfOnBatteries>"@,
        ),
        "<StopIfGoingOnBatteries>true</StopIfGoingOnBatteries>"@,
        "<StopIfGoingOnBatteries>false</StopIfGoingOnBatteries>"@,
    )
}

/// The task description without its power conditions, if it has any: with them
/// a task does not start on battery.
pub fn fix_task_power_gates(xml: &str) -> (r: Option<String>)
    ensures
        r is Some <==> ungated(xml@) != xml@,
        r is Some ==> r->0@ == ungated(xml@),
{
    proof {
        reveal_strlit("<DisallowStartIfOnBatteries>true</DisallowStartIfOnBatteries>");
        reveal_strlit("<StopIfGoingOnBatteries>true</StopIfGoingOnBatteries>");
    }
    let first = str_replace(
        xml,
        "<DisallowStartIfOnBatteries>true</DisallowStartIfOnBatteries>",
        "<DisallowStartIfOnBatteries>false</DisallowStartIfOnBatteries>",
    );
    let out = str_replace(
        first.as_str(),
        "<StopIfGoingOnBatteries>true</StopIfGoingOnBatteries>",
        "<StopIfGoingOnBatteries>false</StopIfGoingOnBatteries>",
    );
    if str_eq(out.as_str(), xml) {
        None
    } else {
        Some(out)
    }
}

/// What the logon task runs: the program's path in escaped quotes.
pub fn task_command(exe: &str) -> (r: String)
    ensures
        r@ == "\\\""@ + exe@ + "\\\""@,
{
    let mut out = "\\\"".to_owned();
    out.push_str(exe);
    out.push_str("\\\"");
    out
}

/// What comes next when starting with the system is switched on or off.
pub enum AutostartSet {
    /// The task, the startup shortcut and the mark of a repair are removed.
    Clear,
    /// A logon task is made that runs this.
    CreateTask(String),
    /// The task is there: the shortcut goes, and the power conditions with it.
    Settle,
    /// There is no task: a startup shortcut is written.
    WriteShortcut,
}

/// Switches starting with the system on or off. `created` tells whether the
/// logon task could be made, once that was tried.
pub fn set_autostart(enabled: bool, exe: &str, created: Option<bool>) -> (r: AutostartSet)
    ensures
        if !enabled {
            r is Clear
        } else {
            match created {
                None => r is CreateTask && r->CreateTask_0@ == "\\\""@ + exe@ + "\\\""@,
                Some(true) => r is Settle,
                Some(false) => r is WriteShortcut,
            }
        },
{
    if !enabled {
        return AutostartSet::Clear;
    }
    match created {
        None => AutostartSet::CreateTask(task_command(exe)),
        Some(true) => AutostartSet::Settle,
        Some(false) => AutostartSet::WriteShortcut,
    }
}

/// What a path is started as: nothing for an empty one or a device, the shell's
/// own item for a store application, and otherwise the trimmed path itself, which
/// is opened where the verb is `open` and executed with the verb elsewhere.
pub proof fn law_how_a_path_is_started(
    l: Launch,
    path: Seq<char>,
    verb: Seq<char>,
    id: Seq<char>,
)
    requires
        starts_as(l, path, verb),
    ensures
        ({
            let p = trimmed(path);
            let device = text_starts(p, "\\\\.\\"@) || text_starts(p, "\\\\?\\"@);
            let own = text_starts(p, "ms-"@) || text_starts(p, "shell:::"@);
            &&& l is Refused <==> p.len() == 0 || device
            &&& p == "aumid:"@ + id ==> l is Shell && l->Shell_0@ == "shell:appsFolder\\"@ + id
            &&& l is Shell ==> text_starts(p, "aumid:"@)
            &&& l is Open ==> l->Open_0@ == p && (verb == "open"@ || own)
            &&& l is Execute ==> l->Execute_0@ == p && l->Execute_1@ == verb && verb != "open"@
                && !own
        }),
{
    let p = trimmed(path);
    reveal_strlit("aumid:");
    reveal_strlit("\\\\.\\");
    reveal_strlit("\\\\?\\");
    if p == "aumid:"@ + id {
        assert(p.subrange(0, "aumid:"@.len() as int) =~= "aumid:"@);
        assert(p.skip("aumid:"@.len() as int) =~= id);
        if text_starts(p, "\\\\.\\"@) {
            assert(p.subrange(0, 4)[0] == p[0]);
        }
        if text_starts(p, "\\\\?\\"@) {
            assert(p.subrange(0, 4)[0] == p[0]);
        }
    }
}

/// The family of a package is what stands before the first `!` of its id.
pub proof fn law_family_stands_before_the_mark(
    family: Seq<char>,
    app: Seq<char>,
    mapped: Option<String>,
)
    requires
        forall|k: int| 0 <= k < family.len() ==> #[trigger] family[k] != '!',
    ensures
        family_of(family.push('!') + app, mapped) == family,
        mapped is Some ==> family_of(family, mapped) == mapped->0@,
        mapped is None ==> family_of(family, mapped).len() == 0,
{
    let id = family.push('!') + app;
    let q = seq!['!'];
    lemma_find_text(id, q, 0);
    lemma_find_text(family, q, 0);
    let n: int = family.len() as int;
    assert(id.subrange(n, n + 1) =~= q);
    assert(text_at(id, q, n));
    let at = find_text(id, q, 0);
    if at < n {
        assert(id.subrange(at, at + 1)[0] == id[at]);
        assert(id[at] == family[at]);
    }
    assert(id.take(n) =~= family);
    let f = find_text(family, q, 0);
    if f >= 0 {
        assert(family.subrange(f, f + 1)[0] == family[f]);
    }
}

/// The value of a lowercase hexadecimal digit.
pub open spec fn hex_value(c: char) -> int {
    if '0' <= c <= '9' {
        c as int - '0' as int
    } else {
        c as int - 'a' as int + 10
    }
}

/// A stored color is shown by its red, its green and its blue part, each in two
/// hexadecimal digits; one without alpha is not shown.
pub proof fn law_color_is_shown_by_its_parts(r: u8, g: u8, b: u8, alpha: u8)
    ensures
        ({
            let shown = accent_of((r + 0x100 * g + 0x1_0000 * b + 0x100_0000 * alpha) as u32);
            let t = shown->0;
            &&& shown is Some <==> alpha > 0
            &&& alpha > 0 ==> {
                &&& t.len() == 7
                &&& t[0] == '#'
                &&& forall|k: int|
                    1 <= k < 7 ==> '0' <= #[trigger] t[k] <= '9' || 'a' <= t[k] <= 'f'
                &&& 16 * hex_value(t[1]) + hex_value(t[2]) == r
                &&& 16 * hex_value(t[3]) + hex_value(t[4]) == g
                &&& 16 * hex_value(t[5]) + hex_value(t[6]) == b
            }
        }),
{
    let color = (r + 0x100 * g + 0x1_0000 * b + 0x100_0000 * alpha) as u32;
    lemma_color_parts(r, g, b, alpha, color);
    lemma_hex_pair(r as int);
    lemma_hex_pair(g as int);
    lemma_hex_pair(b as int);
    if alpha > 0 {
        let t = accent_of(color)->0;
        let (x, y, z) = (hex_pair(r as int), hex_pair(g as int), hex_pair(b as int));
        reveal_strlit("#");
        assert(t =~= seq!['#', x[0], x[1], y[0], y[1], z[0], z[1]]);
    }
}

proof fn lemma_color_parts(r: u8, g: u8, b: u8, alpha: u8, color: u32)
    requires
        color == r + 0x100 * g + 0x1_0000 * b + 0x100_0000 * alpha,
    ensures
        color / 0x100_0000 == alpha,
        color as int % 256 == r,
        color as int / 256 % 256 == g,
        color as int / 65536 % 256 == b,
{
}

proof fn lemma_hex_pair(n: int)
    requires
        0 <= n < 256,
    ensures
        hex_pair(n).len() == 2,
        16 * hex_value(hex_pair(n)[0]) + hex_value(hex_pair(n)[1]) == n,
        forall|k: int|
            0 <= k < 2 ==> '0' <= #[trigger] hex_pair(n)[k] <= '9' || 'a' <= hex_pair(n)[k] <= 'f',
{
    lemma_low_hex(n / 16);
    lemma_low_hex(n % 16);
}

proof fn lemma_low_hex(n: int)
    requires
        0 <= n < 16,
    ensures
        hex_value(low_hex(n)) == n,
        '0' <= low_hex(n) <= '9' || 'a' <= low_hex(n) <= 'f',
{
}

/// A package is elevated where its id names an executable and its family is a
/// name of letters, digits, dots, hyphens and underscores. The script then looks
/// for that family and starts that executable.
pub proof fn law_when_a_package_is_elevated(
    r: Result<Elevation, String>,
    id: Seq<char>,
    mapped: Option<String>,
)
    requires
        elevates(r, id, mapped),
    ensures
        ({
            let family = family_of(id, mapped);
            &&& r is Ok ==> exe_in_id(id) is Some && family.len() > 0
            &&& r is Ok ==> forall|i: int|
                0 <= i < family.len() ==> {
                    let c = #[trigger] family[i];
                    'a' <= c <= 'z' || 'A' <= c <= 'Z' || '0' <= c <= '9' || c == '.' || c == '-'
                        || c == '_'
                }
            &&& exe_in_id(id) is Some && family.len() > 0 && (forall|i: int|
                0 <= i < family.len() ==> {
                    let c = #[trigger] family[i];
                    'a' <= c <= 'z' || 'A' <= c <= 'Z' || '0' <= c <= '9' || c == '.' || c == '-'
                        || c == '_'
                }) ==> r is Ok
            &&& r is Ok ==> r->Ok_0.encoded@ == base64_text(
                le_bytes(
                    code_units(
                        SCRIPT_FAMILY@ + family + SCRIPT_EXE@ + exe_in_id(id)->0 + SCRIPT_START@,
                    ),
                ),
            )
        }),
{
}

/// The place of a store application is its entry among the applications, that of
/// a file the folder that it is in.
pub proof fn law_place_of_an_entry(id: Seq<char>, path: Seq<char>)
    ensures
        place_argument("aumid:"@ + id) == "shell:AppsFolder\\"@ + id,
        !text_starts(path, "aumid:"@) && parent(path) is Some && parent(path)->0.len() > 0
            ==> place_argument(path) == parent(path)->0,
        !text_starts(path, "aumid:"@) && parent(path) is None ==> place_argument(path) == path,
{
    let n: int = "aumid:"@.len() as int;
    assert(("aumid:"@ + id).subrange(0, n) =~= "aumid:"@);
    assert(("aumid:"@ + id).skip(n) =~= id);
}

} // verus!
