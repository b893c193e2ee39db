//! Choosing, checking and locating the TypeScript 7 package the server runs from.
use vstd::prelude::*;
use vstd::string::StrSliceExecFns;

use crate::json::{
    entries_view, json_parse_error, lemma_entries_view, obj_get, object_get, option_view, parse_json,
    parsed_json, Entry, Json, JsonValue,
};
use crate::settings::{
    lemma_leading_digits_concat, string_setting, string_setting_result, ExtensionSetting,
};
use crate::text::{
    char_is_ascii_alphabetic, char_is_ascii_digit, chars_eq, chars_eq_str, chars_of, contains_char,
    decimal_value, ends_with, ends_with_chars, is_ascii_alphabetic, is_ascii_digit, is_whitespace,
    last_index_of,
    last_index_of_chars, leading_digits, leading_digits_len, parse_decimal, push_chars, push_str,
    replace_char, replace_char_chars, starts_with, starts_with_chars, string_of, sub_chars, trim,
    trim_bounds, trim_chars, trim_end, trim_end_char, trim_end_char_chars, trim_end_slashes,
    trim_end_slashes_chars, trim_start,
};

verus! {

/// The npm package the server is installed from.
pub const TYPESCRIPT_PACKAGE: &'static str = "typescript";

// ---------------------------------------------------------------------------
// Versions
// ---------------------------------------------------------------------------

/// `s` without one leading `v` (`str::strip_prefix('v')`, or `s` itself).
pub open spec fn strip_v(s: Seq<char>) -> Seq<char> {
    if s.len() > 0 && s[0] == 'v' {
        s.drop_first()
    } else {
        s
    }
}

/// The characters an exact version may hold.
pub open spec fn version_char(c: char) -> bool {
    is_ascii_digit(c) || c == '.' || c == '-' || c == '+' || is_ascii_alphabetic(c)
}

/// `version` as an exact version: without a leading `v`, trimmed, starting with
/// a digit and made of digits, letters, `.`, `-` and `+` only. Tags such as
/// `latest` or ranges such as `^7` are none.
pub open spec fn exact_version_of(version: Seq<char>) -> Option<Seq<char>> {
    let v = trim(strip_v(version));
    if v.len() == 0 {
        None
    } else if !is_ascii_digit(v[0]) {
        None
    } else if forall|i: int| 0 <= i < v.len() ==> version_char(#[trigger] v[i]) {
        Some(v)
    } else {
        None
    }
}

fn strip_v_chars(s: &[char]) -> (out: Vec<char>)
    ensures
        out@ == strip_v(s@),
{
    if s.len() > 0 && s[0] == 'v' {
        sub_chars(s, 1, s.len())
    } else {
        sub_chars(s, 0, s.len())
    }
}

pub fn exact_version(version: &str) -> (exact: Option<String>)
    ensures
        match exact {
            Some(e) => exact_version_of(version@) == Some(e@),
            None => exact_version_of(version@) is None,
        },
{
    let chars = chars_of(version);
    let stripped = strip_v_chars(chars.as_slice());
    let (a, b) = trim_bounds(stripped.as_slice());
    let v = sub_chars(stripped.as_slice(), a, b);
    if v.len() == 0 {
        return None;
    }
    if !char_is_ascii_digit(v[0]) {
        return None;
    }
    let mut i: usize = 0;
    while i < v.len()
        invariant
            i <= v@.len(),
            v@ == trim(strip_v(version@)),
            v@.len() > 0 && is_ascii_digit(v@[0]),
            forall|j: int| 0 <= j < i ==> version_char(#[trigger] v@[j]),
        decreases v@.len() - i,
    {
        let c = v[i];
        if !(char_is_ascii_digit(c) || c == '.' || c == '-' || c == '+'
            || char_is_ascii_alphabetic(c)) {
            assert(!version_char(v@[i as int]));
            return None;
        }
        i = i + 1;
    }
    Some(string_of(v.as_slice()))
}

/// What `ensure_typescript_7_or_newer` answers for `version`: its leading
/// digits (after an optional `v`) must be there, fit in a `u64`, and be at
/// least 7.
pub open spec fn typescript_7_check(version: Seq<char>) -> Result<(), Seq<char>> {
    let v = strip_v(version);
    let major = v.take(leading_digits(v) as int);
    if major.len() == 0 || decimal_value(major) > u64::MAX {
        Err("invalid TypeScript version `"@ + version + "`"@)
    } else if decimal_value(major) < 7 {
        Err("TypeScript LSP requires TypeScript 7 or newer, got `"@ + version + "`"@)
    } else {
        Ok(())
    }
}

/// The model of a result that carries nothing on success.
pub open spec fn checked_view(r: Result<(), String>) -> Result<(), Seq<char>> {
    match r {
        Ok(()) => Ok(()),
        Err(e) => Err(e@),
    }
}

fn version_message(before: &str, version: &str) -> (message: String)
    ensures
        message@ == before@ + version@ + "`"@,
{
    let mut out: Vec<char> = Vec::new();
    push_str(&mut out, before);
    push_str(&mut out, version);
    push_str(&mut out, "`");
    string_of(out.as_slice())
}

pub fn ensure_typescript_7_or_newer(version: &str) -> (checked: Result<(), String>)
    ensures
        checked_view(checked) == typescript_7_check(version@),
{
    let chars = chars_of(version);
    let v = strip_v_chars(chars.as_slice());
    // take leading digits even if followed by - or . or pre
    let n = leading_digits_len(v.as_slice());
    let major_part = sub_chars(v.as_slice(), 0, n);
    proof {
        assert(major_part@ =~= v@.take(leading_digits(v@) as int));
        assert forall|i: int| 0 <= i < major_part@.len() implies is_ascii_digit(
            #[trigger] major_part@[i],
        ) by {
            crate::text::lemma_leading_digits_are_digits(v@, i);
        }
    }
    if major_part.len() == 0 {
        return Err(version_message("invalid TypeScript version `", version));
    }
    let major = match parse_decimal(major_part.as_slice()) {
        Some(major) => major,
        None => {
            return Err(version_message("invalid TypeScript version `", version));
        },
    };
    if major < 7 {
        return Err(version_message("TypeScript LSP requires TypeScript 7 or newer, got `", version));
    }
    Ok(())
}

// ---------------------------------------------------------------------------
// Dependencies in package.json
// ---------------------------------------------------------------------------

/// Where, in an npm alias's `name@version` text, the version separator
/// stands: the last `@`, not counting a leading scope `@`.
pub open spec fn alias_version_separator(alias: Seq<char>) -> Option<int> {
    if alias.len() > 0 && alias[0] == '@' {
        match last_index_of(alias.drop_first(), '@') {
            Some(p) => Some(p + 1),
            None => None,
        }
    } else {
        last_index_of(alias, '@')
    }
}

/// The package a dependency entry `key: spec` installs: the package an
/// `npm:` alias names (`"npm:typescript@^7"` installs `typescript`), else the
/// key itself; an alias that names no package gives none.
pub open spec fn dependency_package_name_of(key: Seq<char>, spec: Seq<char>) -> Option<Seq<char>> {
    let spec = trim(spec);
    if !starts_with(spec, "npm:"@) {
        Some(key)
    } else {
        let alias = spec.skip(4);
        let package_name = match alias_version_separator(alias) {
            Some(p) => alias.take(p),
            None => alias,
        };
        if package_name.len() > 0 {
            Some(package_name)
        } else {
            None
        }
    }
}

pub fn dependency_package_name<'a>(key: &'a str, spec: &'a str) -> (name: Option<&'a str>)
    ensures
        match name {
            Some(n) => dependency_package_name_of(key@, spec@) == Some(n@),
            None => dependency_package_name_of(key@, spec@) is None,
        },
{
    let chars = chars_of(spec);
    let (a, b) = trim_bounds(chars.as_slice());
    let trimmed = sub_chars(chars.as_slice(), a, b);
    let prefix = chars_of("npm:");
    if !starts_with_chars(trimmed.as_slice(), prefix.as_slice()) {
        return Some(key);
    }
    proof {
        reveal_strlit("npm:");
        assert(trimmed@.len() >= 4);
    }
    let alias = sub_chars(chars.as_slice(), a + 4, b);
    proof {
        assert(alias@ =~= trim(spec@).skip(4));
    }
    let separator: Option<usize> = if alias.len() > 0 && alias[0] == '@' {
        let scoped = sub_chars(alias.as_slice(), 1, alias.len());
        assert(scoped@ =~= alias@.drop_first());
        match last_index_of_chars(scoped.as_slice(), '@') {
            Some(position) => {
                proof {
                    crate::text::lemma_last_index_of_bound(scoped@, '@');
                }
                Some(position + 1)
            },
            None => None,
        }
    } else {
        last_index_of_chars(alias.as_slice(), '@')
    };
    proof {
        if alias@.len() == 0 || alias@[0] != '@' {
            crate::text::lemma_last_index_of_bound(alias@, '@');
        }
    }
    let end = match separator {
        Some(position) => position,
        None => alias.len(),
    };
    if end == 0 {
        return None;
    }
    let package_name = spec.substring_char(a + 4, a + 4 + end);
    proof {
        assert(package_name@ =~= alias@.take(end as int));
        if separator is None {
            assert(alias@.take(end as int) =~= alias@);
        }
    }
    Some(package_name)
}

// ---------------------------------------------------------------------------
// Which TypeScript to install
// ---------------------------------------------------------------------------

/// The TypeScript package to install: what to hand npm, and the exact version
/// that spec pins, where it pins one (a tag such as `next` pins none).
pub struct RequestedTypescriptSpec {
    pub install_spec: String,
    pub exact_version: Option<String>,
}

/// The model of an optional string.
pub open spec fn opt_chars(o: Option<String>) -> Option<Seq<char>> {
    match o {
        Some(s) => Some(s@),
        None => None,
    }
}

impl View for RequestedTypescriptSpec {
    type V = (Seq<char>, Option<Seq<char>>);

    open spec fn view(&self) -> (Seq<char>, Option<Seq<char>>) {
        (self.install_spec@, opt_chars(self.exact_version))
    }
}

/// Whether the installed version `installed` is the exact version `exact` asks for.
pub open spec fn version_matches(exact: Option<Seq<char>>, installed: Option<Seq<char>>) -> bool {
    exact is Some && installed is Some && installed->0 == exact->0
}

/// The model of an optional borrowed string.
pub open spec fn opt_str(o: Option<&str>) -> Option<Seq<char>> {
    match o {
        Some(s) => Some(s@),
        None => None,
    }
}

impl RequestedTypescriptSpec {
    pub fn matches_installed(&self, installed: Option<&str>) -> (matches: bool)
        ensures
            matches == version_matches(self@.1, opt_str(installed)),
    {
        match (&self.exact_version, installed) {
            (Some(exact_version), Some(installed)) => {
                let e = chars_of(exact_version.as_str());
                let i = chars_of(installed);
                chars_eq(i.as_slice(), e.as_slice())
            },
            _ => false,
        }
    }
}

/// What the settings ask for: an exact spec, or the latest stable release
/// (which only the registry can name).
pub enum TypescriptRequest {
    Spec(RequestedTypescriptSpec),
    LatestStable,
}

/// The model of a request: the spec's model, or `None` for the latest stable release.
pub open spec fn request_view(r: TypescriptRequest) -> Option<(Seq<char>, Option<Seq<char>>)> {
    match r {
        TypescriptRequest::Spec(spec) => Some(spec@),
        TypescriptRequest::LatestStable => None,
    }
}

/// What the extension settings `settings` ask to install: the `version`
/// setting, trimmed and non-empty, wins; else the `updateChannel` setting:
/// `latest` (the default) or `next`.
pub open spec fn requested_spec_for(settings: Option<Json>) -> Result<
    Option<(Seq<char>, Option<Seq<char>>)>,
    Seq<char>,
> {
    match string_setting_result(settings, ExtensionSetting::Version) {
        Err(e) => Err(e),
        Ok(Some(version)) => {
            let v = trim(version);
            if v.len() == 0 {
                Err("TypeScript version setting must not be empty"@)
            } else {
                Ok(Some((v, exact_version_of(v))))
            }
        },
        Ok(None) => match string_setting_result(settings, ExtensionSetting::UpdateChannel) {
            Err(e) => Err(e),
            Ok(None) => Ok(None),
            Ok(Some(channel)) => if channel == "latest"@ {
                Ok(None)
            } else if channel == "next"@ {
                Ok(Some(("next"@, None)))
            } else {
                Err(
                    "unsupported TypeScript update channel `"@ + channel
                        + "`; expected `latest` or `next`"@,
                )
            },
        },
    }
}

pub fn requested_typescript_spec(ext_settings: &Option<JsonValue>) -> (requested: Result<
    TypescriptRequest,
    String,
>)
    ensures
        match (requested, requested_spec_for(option_view(*ext_settings))) {
            (Ok(r), Ok(m)) => request_view(r) == m,
            (Err(e), Err(m)) => e@ == m,
            _ => false,
        },
{
    let version = string_setting(ext_settings, ExtensionSetting::Version)?;
    if let Some(version) = version {
        let chars = chars_of(version.as_str());
        let trimmed = trim_chars(chars.as_slice());
        if trimmed.len() == 0 {
            return Err("TypeScript version setting must not be empty".to_owned());
        }
        let version = string_of(trimmed.as_slice());
        let exact = exact_version(version.as_str());
        return Ok(
            TypescriptRequest::Spec(RequestedTypescriptSpec { install_spec: version, exact_version: exact }),
        );
    }
    let channel = match string_setting(ext_settings, ExtensionSetting::UpdateChannel)? {
        Some(channel) => channel,
        None => {
            return Ok(TypescriptRequest::LatestStable);
        },
    };
    let chars = chars_of(channel.as_str());
    if chars_eq_str(chars.as_slice(), "latest") {
        Ok(TypescriptRequest::LatestStable)
    } else if chars_eq_str(chars.as_slice(), "next") {
        Ok(
            TypescriptRequest::Spec(
                RequestedTypescriptSpec { install_spec: "next".to_owned(), exact_version: None },
            ),
        )
    } else {
        let mut message: Vec<char> = Vec::new();
        push_str(&mut message, "unsupported TypeScript update channel `");
        push_chars(&mut message, chars.as_slice());
        push_str(&mut message, "`; expected `latest` or `next`");
        Err(string_of(message.as_slice()))
    }
}

/// The spec for the latest stable release, given what the registry answered
/// for the latest version (`latest`) and, where it failed, what is installed
/// already (`installed`): the latest version must be TypeScript 7 or newer;
/// with the registry unreachable, an installed 7+ version is reused, else the
/// registry's error stands.
pub fn latest_stable_spec(
    latest: Result<String, String>,
    installed: Option<Result<Option<String>, String>>,
) -> (spec: Result<RequestedTypescriptSpec, String>)
    ensures
        match latest {
            Ok(l) => match typescript_7_check(l@) {
                Ok(()) => spec matches Ok(r) && r@ == (l@, Some(l@)),
                Err(e) => spec matches Err(m) && m@ == e,
            },
            Err(error) => match installed {
                Some(Ok(Some(i))) if typescript_7_check(i@) is Ok => spec matches Ok(r) && r@ == (
                    i@,
                    Some(i@),
                ),
                _ => spec matches Err(m) && m@ == error@,
            },
        },
{
    match latest {
        Ok(latest) => {
            ensure_typescript_7_or_newer(latest.as_str())?;
            let exact = latest.clone();
            Ok(RequestedTypescriptSpec { install_spec: latest, exact_version: Some(exact) })
        },
        // registry unreachable (offline, proxy): reuse an existing managed 7+
        // install instead of failing the server start
        Err(error) => match installed {
            Some(Ok(Some(installed))) => {
                if ensure_typescript_7_or_newer(installed.as_str()).is_ok() {
                    let exact = installed.clone();
                    Ok(RequestedTypescriptSpec { install_spec: installed, exact_version: Some(exact) })
                } else {
                    Err(error)
                }
            },
            _ => Err(error),
        },
    }
}

/// Whether the managed install has to run: a tag always installs; an exact
/// version only when another version (or none) is installed.
pub fn needs_typescript_install(requested: &RequestedTypescriptSpec, current: Option<&str>) -> (needed: bool)
    ensures
        needed == (requested@.1 is None || !version_matches(requested@.1, opt_str(current))),
{
    let is_tag = requested.exact_version.is_none();
    is_tag || !requested.matches_installed(current)
}

/// Checks what npm reports as installed after the managed install.
pub fn check_installed_typescript(installed: Option<&str>) -> (checked: Result<(), String>)
    ensures
        match installed {
            None => checked_view(checked) == Err::<(), Seq<char>>(
                "TypeScript was not installed after npm install completed"@,
            ),
            Some(v) => checked_view(checked) == typescript_7_check(v@),
        },
{
    match installed {
        None => Err("TypeScript was not installed after npm install completed".to_owned()),
        Some(installed) => ensure_typescript_7_or_newer(installed),
    }
}

// ---------------------------------------------------------------------------
// Paths
// ---------------------------------------------------------------------------

/// A path written with `/` only (`str::replace('\\', "/")`).
pub open spec fn slashed(path: Seq<char>) -> Seq<char> {
    replace_char(path, '\\', '/')
}

/// `path` with every `\\` turned into `/`.
pub fn slash_path(path: &str) -> (slashed_path: String)
    ensures
        slashed_path@ == slashed(path@),
{
    let chars = chars_of(path);
    let out = replace_char_chars(chars.as_slice(), '\\', '/');
    string_of(out.as_slice())
}

/// A worktree root written with `/` and without trailing `/`.
pub open spec fn project_root_of(root_path: Seq<char>) -> Seq<char> {
    trim_end_char(slashed(root_path), '/')
}

/// The worktree root `root_path` written with `/` and without trailing `/`.
pub fn project_root(root_path: &str) -> (root: String)
    ensures
        root@ == project_root_of(root_path@),
{
    let chars = chars_of(root_path);
    let slashed_chars = replace_char_chars(chars.as_slice(), '\\', '/');
    let root = trim_end_char_chars(slashed_chars.as_slice(), '/');
    string_of(root.as_slice())
}

/// The endings that `tsdk.path` may carry past the package root, in the order
/// they are tried.
pub open spec fn tsdk_suffixes() -> Seq<Seq<char>> {
    seq!["/bin/tsc.js"@, "/bin/tsc"@, "/lib"@, "/bin"@]
}

/// `path` without the first of `suffixes` it ends with, or `path` itself.
pub open spec fn strip_first_suffix(path: Seq<char>, suffixes: Seq<Seq<char>>) -> Seq<char>
    decreases suffixes.len(),
{
    if suffixes.len() == 0 {
        path
    } else if ends_with(path, suffixes[0]) {
        path.take(path.len() - suffixes[0].len())
    } else {
        strip_first_suffix(path, suffixes.drop_first())
    }
}

/// The package root that the setting `tsdk_path` names, for a worktree whose
/// root is `root_path`.
pub open spec fn tsdk_package_dir_of(root_path: Seq<char>, tsdk_path: Seq<char>) -> Seq<char> {
    let trimmed = trim_end_slashes(trim(tsdk_path));
    let root = trim_end_char(slashed(root_path), '/');
    let base = if (trimmed.len() > 0 && (trimmed[0] == '/' || trimmed[0] == '\\'))
        || trimmed.contains(':') {
        trimmed
    } else {
        root + seq!['/'] + trimmed
    };
    strip_first_suffix(slashed(base), tsdk_suffixes())
}

/// Normalizes a `tsdk.path` setting (VS Code convention: the package's `lib`
/// directory; also accepted: the package root or a `bin/tsc` path) into the
/// package root directory, resolved against the worktree root `root_path`
/// when relative.
pub fn tsdk_package_dir(root_path: &str, tsdk_path: &str) -> (dir: String)
    ensures
        dir@ == tsdk_package_dir_of(root_path@, tsdk_path@),
{
    let tsdk = chars_of(tsdk_path);
    let trimmed0 = trim_chars(tsdk.as_slice());
    let trimmed = trim_end_slashes_chars(trimmed0.as_slice());
    let root_chars = chars_of(root_path);
    let root_slashed = replace_char_chars(root_chars.as_slice(), '\\', '/');
    let root = trim_end_char_chars(root_slashed.as_slice(), '/');
    let absolute = (trimmed.len() > 0 && (trimmed[0] == '/' || trimmed[0] == '\\'))
        || contains_char(trimmed.as_slice(), ':');
    let base = if absolute {
        trimmed
    } else {
        let mut joined = root;
        joined.push('/');
        push_chars(&mut joined, trimmed.as_slice());
        assert(joined@ =~= root@ + seq!['/'] + trimmed@);
        joined
    };
    let norm = replace_char_chars(base.as_slice(), '\\', '/');
    let suffixes: [&'static str; 4] = ["/bin/tsc.js", "/bin/tsc", "/lib", "/bin"];
    let mut i: usize = 0;
    assert(tsdk_suffixes().skip(0) =~= tsdk_suffixes());
    while i < 4
        invariant
            i <= 4,
            suffixes@ == seq!["/bin/tsc.js", "/bin/tsc", "/lib", "/bin"],
            tsdk_package_dir_of(root_path@, tsdk_path@) == strip_first_suffix(
                norm@,
                tsdk_suffixes().skip(i as int),
            ),
        decreases 4 - i,
    {
        let suffix = chars_of(suffixes[i]);
        proof {
            assert(tsdk_suffixes().skip(i as int)[0] == suffix@);
            assert(tsdk_suffixes().skip(i as int).drop_first() =~= tsdk_suffixes().skip(i + 1));
        }
        if ends_with_chars(norm.as_slice(), suffix.as_slice()) {
            let stripped = sub_chars(norm.as_slice(), 0, norm.len() - suffix.len());
            return string_of(stripped.as_slice());
        }
        i = i + 1;
    }
    proof {
        assert(tsdk_suffixes().skip(4) =~= Seq::<Seq<char>>::empty());
    }
    string_of(norm.as_slice())
}

// ---------------------------------------------------------------------------
// Launchers inside a package
// ---------------------------------------------------------------------------

/// The operating system the editor runs on.
#[derive(Clone, Copy)]
pub enum Os {
    Mac,
    Linux,
    Windows,
}

/// The processor architecture the editor runs on.
#[derive(Clone, Copy)]
pub enum Architecture {
    Aarch64,
    X8664,
    X86,
}

/// The npm name of the platform.
pub open spec fn platform_name(os: Os) -> Seq<char> {
    match os {
        Os::Mac => "darwin"@,
        Os::Linux => "linux"@,
        Os::Windows => "win32"@,
    }
}

/// The npm name of the architecture, where TypeScript ships a binary for it.
pub open spec fn arch_name(arch: Architecture) -> Option<Seq<char>> {
    match arch {
        Architecture::Aarch64 => Some("arm64"@),
        Architecture::X8664 => Some("x64"@),
        Architecture::X86 => None,
    }
}

/// The file name of the native server executable.
pub open spec fn exe_name(os: Os) -> Seq<char> {
    match os {
        Os::Windows => "tsc.exe"@,
        _ => "tsc"@,
    }
}

/// Where the native `tsc` of the per-platform package may stand, for the
/// package directory `dir`, in the order they are tried: `dir` itself being
/// the platform package, the platform package beside it, or nested in it.
pub open spec fn native_server_candidates_of(os: Os, arch: Architecture, dir: Seq<char>) -> Option<
    Seq<Seq<char>>,
> {
    match arch_name(arch) {
        None => None,
        Some(a) => {
            let platform_package = "@typescript/typescript-"@ + platform_name(os) + "-"@ + a;
            let exe = exe_name(os);
            Some(
                seq![
                    dir + "/lib/"@ + exe,
                    dir + "/../"@ + platform_package + "/lib/"@ + exe,
                    dir + "/node_modules/"@ + platform_package + "/lib/"@ + exe,
                ],
            )
        },
    }
}

/// The first of `candidates` that `files` holds.
pub open spec fn first_present(candidates: Seq<Seq<char>>, files: Seq<Seq<char>>) -> Option<Seq<char>>
    decreases candidates.len(),
{
    if candidates.len() == 0 {
        None
    } else if files.contains(candidates[0]) {
        Some(candidates[0])
    } else {
        first_present(candidates.drop_first(), files)
    }
}

pub open spec fn strings_model(v: Vec<String>) -> Seq<Seq<char>> {
    v@.map_values(|s: String| s@)
}

fn platform_str(os: Os) -> (name: &'static str)
    ensures
        name@ == platform_name(os),
{
    match os {
        Os::Mac => "darwin",
        Os::Linux => "linux",
        Os::Windows => "win32",
    }
}

fn exe_str(os: Os) -> (name: &'static str)
    ensures
        name@ == exe_name(os),
{
    match os {
        Os::Windows => "tsc.exe",
        _ => "tsc",
    }
}

fn path_of_parts(a: &str, b: &str, c: &str, d: &str, e: &str) -> (path: String)
    ensures
        path@ == a@ + b@ + c@ + d@ + e@,
{
    let mut out: Vec<char> = Vec::new();
    push_str(&mut out, a);
    push_str(&mut out, b);
    push_str(&mut out, c);
    push_str(&mut out, d);
    push_str(&mut out, e);
    proof {
        assert(out@ =~= a@ + b@ + c@ + d@ + e@);
    }
    string_of(out.as_slice())
}

/// The places where the native server binary may be, for the package at
/// `package_dir`; none where the platform has no prebuilt binary.
pub fn native_server_candidates(os: Os, arch: Architecture, package_dir: &str) -> (candidates:
    Option<Vec<String>>)
    ensures
        match candidates {
            Some(c) => native_server_candidates_of(os, arch, package_dir@) == Some(
                strings_model(c),
            ),
            None => native_server_candidates_of(os, arch, package_dir@) is None,
        },
{
    let platform = platform_str(os);
    let arch_text = match arch {
        Architecture::Aarch64 => "arm64",
        Architecture::X8664 => "x64",
        Architecture::X86 => {
            return None;
        },
    };
    let exe = exe_str(os);
    let platform_package = path_of_parts("@typescript/typescript-", platform, "-", arch_text, "");
    let own = path_of_parts(package_dir, "/lib/", exe, "", "");
    // hoisted install: platform package is a sibling in the same node_modules
    let hoisted = path_of_parts(package_dir, "/../", platform_package.as_str(), "/lib/", exe);
    // nested install
    let nested = path_of_parts(
        package_dir,
        "/node_modules/",
        platform_package.as_str(),
        "/lib/",
        exe,
    );
    let candidates = vec![own, hoisted, nested];
    proof {
        reveal_strlit("");
        assert(""@ =~= Seq::<char>::empty());
        assert(arch_name(arch) == Some(arch_text@));
        assert(strings_model(candidates) =~= seq![
            package_dir@ + "/lib/"@ + exe_name(os),
            package_dir@ + "/../"@ + platform_package@ + "/lib/"@ + exe_name(os),
            package_dir@ + "/node_modules/"@ + platform_package@ + "/lib/"@ + exe_name(os),
        ]);
    }
    Some(candidates)
}

fn holds_string(files: &Vec<String>, path: &String) -> (found: bool)
    ensures
        found == strings_model(*files).contains(path@),
{
    let ghost m = strings_model(*files);
    let mut i: usize = 0;
    while i < files.len()
        invariant
            i <= files@.len(),
            m == strings_model(*files),
            m.len() == files@.len(),
            forall|j: int| 0 <= j < i ==> m[j] != path@,
        decreases files@.len() - i,
    {
        if files[i] == *path {
            assert(m[i as int] == path@);
            return true;
        }
        i = i + 1;
    }
    proof {
        if m.contains(path@) {
            let j = choose|j: int| 0 <= j < m.len() && m[j] == path@;
            assert(m[j] != path@);
        }
    }
    false
}

/// The first of `candidates` that `files` holds.
fn first_present_path(candidates: &Vec<String>, files: &Vec<String>) -> (found: Option<String>)
    ensures
        match found {
            Some(p) => first_present(strings_model(*candidates), strings_model(*files)) == Some(p@),
            None => first_present(strings_model(*candidates), strings_model(*files)) is None,
        },
{
    let ghost c = strings_model(*candidates);
    let ghost f = strings_model(*files);
    assert(c.skip(0) =~= c);
    let mut i: usize = 0;
    while i < candidates.len()
        invariant
            i <= candidates@.len(),
            c == strings_model(*candidates),
            f == strings_model(*files),
            c.len() == candidates@.len(),
            first_present(c, f) == first_present(c.skip(i as int), f),
        decreases candidates@.len() - i,
    {
        proof {
            assert(c.skip(i as int)[0] == candidates@[i as int]@);
            assert(c.skip(i as int).drop_first() =~= c.skip(i + 1));
        }
        if holds_string(files, &candidates[i]) {
            return Some(candidates[i].clone());
        }
        i = i + 1;
    }
    proof {
        assert(c.skip(i as int) =~= Seq::<Seq<char>>::empty());
    }
    None
}

/// Locates the native `tsc` executable that ships in the per-platform
/// `@typescript/typescript-<platform>-<arch>` package next to (or inside) the
/// resolved `typescript` package, given the candidate paths found to be files
/// (`files`). Returns `None` when the platform has no prebuilt binary or the
/// package layout is not recognized (pnpm virtual stores, unusual hoisting):
/// callers fall back to running the package's `bin/tsc` Node shim, which
/// performs Node module resolution instead.
pub fn find_native_server_binary(
    os: Os,
    arch: Architecture,
    package_dir: &str,
    files: &Vec<String>,
) -> (binary: Option<String>)
    ensures
        match native_server_candidates_of(os, arch, package_dir@) {
            None => binary is None,
            Some(c) => match binary {
                Some(b) => first_present(c, strings_model(*files)) == Some(b@),
                None => first_present(c, strings_model(*files)) is None,
            },
        },
{
    match native_server_candidates(os, arch, package_dir) {
        None => None,
        Some(candidates) => first_present_path(&candidates, files),
    }
}

/// The Node shim a package launches the server with.
pub open spec fn node_shim_of(package_dir: Seq<char>) -> Seq<char> {
    package_dir + "/bin/tsc"@
}

/// The path of the package's `bin/tsc` Node shim.
pub fn node_shim_candidate(package_dir: &str) -> (shim: String)
    ensures
        shim@ == node_shim_of(package_dir@),
{
    let mut out = chars_of(package_dir);
    push_str(&mut out, "/bin/tsc");
    string_of(out.as_slice())
}

/// The package's Node shim, where it is a file (`shim_is_file`), else the error
/// that the package has no launcher.
pub fn node_shim_path(package_dir: &str, shim_is_file: bool) -> (shim: Result<String, String>)
    ensures
        shim_is_file ==> (shim matches Ok(p) && p@ == node_shim_of(package_dir@)),
        !shim_is_file ==> (shim matches Err(e) && e@ == "TypeScript package at `"@ + package_dir@
            + "` has no native server binary for this platform and no `bin/tsc` launcher"@),
{
    if shim_is_file {
        Ok(node_shim_candidate(package_dir))
    } else {
        let mut out: Vec<char> = Vec::new();
        push_str(&mut out, "TypeScript package at `");
        push_str(&mut out, package_dir);
        push_str(
            &mut out,
            "` has no native server binary for this platform and no `bin/tsc` launcher",
        );
        Err(string_of(out.as_slice()))
    }
}

/// A package can start the server when its Node shim or a native binary is there.
pub fn has_usable_typescript_launcher(
    node_shim: &Result<String, String>,
    native_binary: &Option<String>,
) -> (usable: bool)
    ensures
        usable == (node_shim is Ok || native_binary is Some),
{
    node_shim.is_ok() || native_binary.is_some()
}

/// The `version` string of a parsed `package.json` (`pkg_json` is its path,
/// for the error).
pub open spec fn package_version_of(pkg_json: Seq<char>, pkg: Json) -> Result<Seq<char>, Seq<char>> {
    match pkg {
        Json::Object(es) => match obj_get(es, "version"@) {
            Some(Json::Str(v)) => Ok(v),
            _ => Err("no version in "@ + pkg_json),
        },
        _ => Err("no version in "@ + pkg_json),
    }
}

/// The version a parsed `package.json` declares.
pub fn typescript_version_from_package_json(pkg_json: &str, pkg: &JsonValue) -> (version: Result<
    String,
    String,
>)
    ensures
        match (version, package_version_of(pkg_json@, pkg@)) {
            (Ok(v), Ok(m)) => v@ == m,
            (Err(e), Err(m)) => e@ == m,
            _ => false,
        },
{
    let found = match pkg {
        JsonValue::Object(es) => match object_get(es, "version") {
            Some(JsonValue::Str(v)) => Some(v.clone()),
            _ => None,
        },
        _ => None,
    };
    match found {
        Some(v) => Ok(v),
        None => {
            let mut out: Vec<char> = Vec::new();
            push_str(&mut out, "no version in ");
            push_str(&mut out, pkg_json);
            Err(string_of(out.as_slice()))
        },
    }
}

// ---------------------------------------------------------------------------
// A project-local TypeScript
// ---------------------------------------------------------------------------

/// The `package.json` sections whose entries are searched, in order.
pub open spec fn dependency_sections() -> Seq<Seq<char>> {
    seq!["dependencies"@, "devDependencies"@, "peerDependencies"@]
}

/// The entries of the section `section` of `pkg`, where it is an object.
pub open spec fn section_entries(pkg: Json, section: Seq<char>) -> Seq<Entry> {
    match pkg {
        Json::Object(es) => match obj_get(es, section) {
            Some(Json::Object(d)) => d,
            _ => Seq::empty(),
        },
        _ => Seq::empty(),
    }
}

/// The install directories, under the project root `root`, of the entries of
/// `es` that install the `typescript` package, in order.
pub open spec fn section_dirs(es: Seq<Entry>, root: Seq<char>) -> Seq<Seq<char>>
    decreases es.len(),
{
    if es.len() == 0 {
        Seq::empty()
    } else {
        let here = match es[0].1 {
            Json::Str(spec) => if dependency_package_name_of(es[0].0, spec) == Some("typescript"@) {
                seq![root + "/node_modules/"@ + es[0].0]
            } else {
                Seq::empty()
            },
            _ => Seq::empty(),
        };
        here + section_dirs(es.drop_first(), root)
    }
}

/// Every directory where the manifest `pkg` installs the `typescript`
/// package, section by section.
pub open spec fn typescript_dependency_dirs_of(pkg: Json, root: Seq<char>) -> Seq<Seq<char>> {
    section_dirs(section_entries(pkg, "dependencies"@), root) + section_dirs(
        section_entries(pkg, "devDependencies"@),
        root,
    ) + section_dirs(section_entries(pkg, "peerDependencies"@), root)
}

fn push_section_dirs(out: &mut Vec<String>, pkg: &JsonValue, section: &str, root: &str)
    ensures
        strings_model(*final(out)) == strings_model(*old(out)) + section_dirs(
            section_entries(pkg@, section@),
            root@,
        ),
{
    let es = match pkg {
        JsonValue::Object(top) => match object_get(top, section) {
            Some(JsonValue::Object(d)) => d,
            _ => {
                assert(section_entries(pkg@, section@) =~= Seq::<Entry>::empty());
                assert(strings_model(*out) =~= strings_model(*out) + Seq::<Seq<char>>::empty());
                return ;
            },
        },
        _ => {
            assert(strings_model(*out) =~= strings_model(*out) + Seq::<Seq<char>>::empty());
            return ;
        },
    };
    let ghost e = entries_view(es@);
    let ghost start = strings_model(*out);
    proof {
        lemma_entries_view(es@);
        assert(e.skip(0) =~= e);
        assert(start =~= start + Seq::<Seq<char>>::empty());
    }
    let mut i: usize = 0;
    while i < es.len()
        invariant
            i <= es@.len(),
            e == entries_view(es@),
            e == section_entries(pkg@, section@),
            e.len() == es@.len(),
            forall|j: int| 0 <= j < es@.len() ==> #[trigger] e[j] == (es@[j].0@, es@[j].1@),
            start + section_dirs(e, root@) == strings_model(*out) + section_dirs(
                e.skip(i as int),
                root@,
            ),
            start == strings_model(*old(out)),
        decreases es@.len() - i,
    {
        let ghost before = strings_model(*out);
        proof {
            assert(e.skip(i as int)[0] == e[i as int]);
            assert(e.skip(i as int).drop_first() =~= e.skip(i + 1));
        }
        let key = es[i].0.as_str();
        match &es[i].1 {
            JsonValue::Str(spec) => {
                let is_typescript = match dependency_package_name(key, spec.as_str()) {
                    Some(name) => {
                        let n = chars_of(name);
                        chars_eq_str(n.as_slice(), TYPESCRIPT_PACKAGE)
                    },
                    None => false,
                };
                if is_typescript {
                    let dir = path_of_parts(root, "/node_modules/", key, "", "");
                    proof {
                        reveal_strlit("");
                        assert(""@ =~= Seq::<char>::empty());
                    }
                    out.push(dir);
                    proof {
                        assert(strings_model(*out) =~= before.push(dir@));
                        assert(before + section_dirs(e.skip(i as int), root@) =~= strings_model(
                            *out,
                        ) + section_dirs(e.skip(i + 1), root@));
                    }
                } else {
                    proof {
                        assert(section_dirs(e.skip(i as int), root@) =~= section_dirs(
                            e.skip(i + 1),
                            root@,
                        ));
                    }
                }
            },
            _ => {
                proof {
                    assert(section_dirs(e.skip(i as int), root@) =~= section_dirs(
                        e.skip(i + 1),
                        root@,
                    ));
                }
            },
        }
        i = i + 1;
    }
    proof {
        assert(e.skip(i as int) =~= Seq::<Entry>::empty());
        assert(strings_model(*out) + Seq::<Seq<char>>::empty() =~= strings_model(*out));
    }
}

/// The directories, under the project root `root`, where the manifest `pkg`
/// installs the `typescript` package (npm aliases may use any key, but their
/// target package must be `typescript`), in the order they are tried.
pub fn typescript_dependency_dirs(pkg: &JsonValue, root: &str) -> (dirs: Vec<String>)
    ensures
        strings_model(dirs) == typescript_dependency_dirs_of(pkg@, root@),
{
    let mut dirs: Vec<String> = Vec::new();
    assert(strings_model(dirs) =~= Seq::<Seq<char>>::empty());
    push_section_dirs(&mut dirs, pkg, "dependencies", root);
    push_section_dirs(&mut dirs, pkg, "devDependencies", root);
    push_section_dirs(&mut dirs, pkg, "peerDependencies", root);
    proof {
        assert(strings_model(dirs) =~= typescript_dependency_dirs_of(pkg@, root@));
    }
    dirs
}

/// What was found of an installed package in the directory `dir`: the
/// version its `package.json` declares (or why none could be read), and
/// whether it has a launcher.
pub struct PackageProbe {
    pub dir: String,
    pub version: Result<String, String>,
    pub has_launcher: bool,
}

/// Whether the probe shows a TypeScript 7+ package that can start the server.
pub open spec fn probe_usable(p: PackageProbe) -> bool {
    &&& p.version matches Ok(v)
    &&& typescript_7_check(v@) is Ok
    &&& p.has_launcher
}

/// Whether the first probe of `dir` among `probes` shows a usable package.
pub open spec fn dir_usable(probes: Seq<PackageProbe>, dir: Seq<char>) -> bool
    decreases probes.len(),
{
    if probes.len() == 0 {
        false
    } else if probes[0].dir@ == dir {
        probe_usable(probes[0])
    } else {
        dir_usable(probes.drop_first(), dir)
    }
}

/// The first of `dirs` that the probes show usable.
pub open spec fn first_usable(dirs: Seq<Seq<char>>, probes: Seq<PackageProbe>) -> Option<Seq<char>>
    decreases dirs.len(),
{
    if dirs.len() == 0 {
        None
    } else if dir_usable(probes, dirs[0]) {
        Some(dirs[0])
    } else {
        first_usable(dirs.drop_first(), probes)
    }
}

fn is_dir_usable(probes: &Vec<PackageProbe>, dir: &String) -> (usable: bool)
    ensures
        usable == dir_usable(probes@, dir@),
{
    let mut i: usize = 0;
    assert(probes@.skip(0) =~= probes@);
    while i < probes.len()
        invariant
            i <= probes@.len(),
            dir_usable(probes@, dir@) == dir_usable(probes@.skip(i as int), dir@),
        decreases probes@.len() - i,
    {
        proof {
            assert(probes@.skip(i as int)[0] == probes@[i as int]);
            assert(probes@.skip(i as int).drop_first() =~= probes@.skip(i + 1));
        }
        let probe = &probes[i];
        if probe.dir == *dir {
            return match &probe.version {
                Ok(version) => ensure_typescript_7_or_newer(version.as_str()).is_ok()
                    && probe.has_launcher,
                Err(_) => false,
            };
        }
        i = i + 1;
    }
    false
}

/// Finds a usable project-local TypeScript 7+ package by scanning the
/// `package.json` dependency sections of `pkg`, given what was found in the
/// candidate directories (`probes`).
pub fn find_typescript_dependency(pkg: &JsonValue, root: &str, probes: &Vec<PackageProbe>) -> (found:
    Option<String>)
    ensures
        match found {
            Some(d) => first_usable(typescript_dependency_dirs_of(pkg@, root@), probes@) == Some(d@),
            None => first_usable(typescript_dependency_dirs_of(pkg@, root@), probes@) is None,
        },
{
    let dirs = typescript_dependency_dirs(pkg, root);
    let ghost ds = strings_model(dirs);
    assert(ds.skip(0) =~= ds);
    let mut i: usize = 0;
    while i < dirs.len()
        invariant
            i <= dirs@.len(),
            ds == strings_model(dirs),
            ds == typescript_dependency_dirs_of(pkg@, root@),
            ds.len() == dirs@.len(),
            first_usable(ds, probes@) == first_usable(ds.skip(i as int), probes@),
        decreases dirs@.len() - i,
    {
        proof {
            assert(ds.skip(i as int)[0] == dirs@[i as int]@);
            assert(ds.skip(i as int).drop_first() =~= ds.skip(i + 1));
        }
        if is_dir_usable(probes, &dirs[i]) {
            return Some(dirs[i].clone());
        }
        i = i + 1;
    }
    proof {
        assert(ds.skip(i as int) =~= Seq::<Seq<char>>::empty());
    }
    None
}

// ---------------------------------------------------------------------------
// Package files as read from disk
// ---------------------------------------------------------------------------

/// The path of the `package.json` in the package directory `package_dir`.
pub open spec fn package_json_path_of(package_dir: Seq<char>) -> Seq<char> {
    package_dir + "/package.json"@
}

pub fn package_json_path(package_dir: &str) -> (path: String)
    ensures
        path@ == package_json_path_of(package_dir@),
{
    let mut out = chars_of(package_dir);
    push_str(&mut out, "/package.json");
    string_of(out.as_slice())
}

/// The version that the `package.json` text `content`, read from `pkg_json`,
/// declares: the text must parse, and its `version` must be a string.
pub open spec fn package_text_version(pkg_json: Seq<char>, content: Seq<char>) -> Result<
    Seq<char>,
    Seq<char>,
> {
    match parsed_json(content) {
        Some(j) => package_version_of(pkg_json, j),
        None => Err("invalid "@ + pkg_json + ": "@ + json_parse_error(content)),
    }
}

/// The version that the text `content` of the package file `pkg_json` declares.
pub fn typescript_version_from_package_text(pkg_json: &str, content: &str) -> (version: Result<
    String,
    String,
>)
    ensures
        match (version, package_text_version(pkg_json@, content@)) {
            (Ok(v), Ok(m)) => v@ == m,
            (Err(e), Err(m)) => e@ == m,
            _ => false,
        },
{
    match parse_json(content) {
        Ok(pkg) => typescript_version_from_package_json(pkg_json, &pkg),
        Err(error) => {
            let mut out: Vec<char> = Vec::new();
            push_str(&mut out, "invalid ");
            push_str(&mut out, pkg_json);
            push_str(&mut out, ": ");
            push_str(&mut out, error.as_str());
            Err(string_of(out.as_slice()))
        },
    }
}

/// The directories where the project manifest text `package_json`, in the
/// worktree rooted at `root_path`, installs the `typescript` package; none
/// where the text does not parse.
pub open spec fn local_dependency_dirs_of(package_json: Seq<char>, root_path: Seq<char>) -> Seq<
    Seq<char>,
> {
    match parsed_json(package_json) {
        Some(pkg) => typescript_dependency_dirs_of(pkg, project_root_of(root_path)),
        None => Seq::empty(),
    }
}

/// The candidate directories of the project-local search, in order.
pub fn local_typescript_dependency_dirs(package_json: &str, root_path: &str) -> (dirs: Vec<String>)
    ensures
        strings_model(dirs) == local_dependency_dirs_of(package_json@, root_path@),
{
    match parse_json(package_json) {
        Ok(pkg) => {
            let root = project_root(root_path);
            typescript_dependency_dirs(&pkg, root.as_str())
        },
        Err(_) => {
            let dirs: Vec<String> = Vec::new();
            assert(strings_model(dirs) =~= Seq::<Seq<char>>::empty());
            dirs
        },
    }
}

/// Finds a usable project-local TypeScript 7+ package from the text of the
/// project's `package.json` (`package_json`), in the worktree rooted at
/// `root_path`, given what was found in the candidate directories (`probes`).
/// A manifest that does not parse gives none.
pub fn find_local_typescript_package_dir(
    package_json: &str,
    root_path: &str,
    probes: &Vec<PackageProbe>,
) -> (found: Option<String>)
    ensures
        match parsed_json(package_json@) {
            None => found is None,
            Some(pkg) => match found {
                Some(d) => first_usable(
                    typescript_dependency_dirs_of(pkg, project_root_of(root_path@)),
                    probes@,
                ) == Some(d@),
                None => first_usable(
                    typescript_dependency_dirs_of(pkg, project_root_of(root_path@)),
                    probes@,
                ) is None,
            },
        },
{
    let pkg = match parse_json(package_json) {
        Ok(pkg) => pkg,
        Err(_) => {
            return None;
        },
    };
    let root = project_root(root_path);
    find_typescript_dependency(&pkg, root.as_str(), probes)
}

// ---------------------------------------------------------------------------
// Laws
// ---------------------------------------------------------------------------

/// An exact version is its own exact version.
pub proof fn law_exact_version_idempotent(version: Seq<char>)
    requires
        exact_version_of(version) is Some,
    ensures
        exact_version_of(exact_version_of(version)->0) == exact_version_of(version),
{
    let e = exact_version_of(version)->0;
    assert(version_char(e[0]));
    assert(version_char(e.last())) by {
        assert(version_char(e[e.len() - 1]));
    }
    assert(strip_v(e) == e);
    assert(trim_start(e) == e);
    assert(trim_end(e) == e);
}

/// The `version` setting, where set and not blank, decides alone: the update
/// channel is not read.
pub proof fn law_version_setting_wins(settings: Option<Json>, version: Seq<char>)
    requires
        string_setting_result(settings, ExtensionSetting::Version) == Ok::<
            Option<Seq<char>>,
            Seq<char>,
        >(Some(version)),
        trim(version).len() > 0,
    ensures
        requested_spec_for(settings) == Ok::<Option<(Seq<char>, Option<Seq<char>>)>, Seq<char>>(
            Some((trim(version), exact_version_of(trim(version)))),
        ),
{
}

/// An absolute `tsdk.path` names the same directory whatever the worktree root.
pub proof fn law_tsdk_absolute_ignores_root(root_a: Seq<char>, root_b: Seq<char>, tsdk: Seq<char>)
    requires
        ({
            let trimmed = trim_end_slashes(trim(tsdk));
            (trimmed.len() > 0 && (trimmed[0] == '/' || trimmed[0] == '\\')) || trimmed.contains(
                ':',
            )
        }),
    ensures
        tsdk_package_dir_of(root_a, tsdk) == tsdk_package_dir_of(root_b, tsdk),
{
}

/// The first of the candidates that the files hold is the one found, and
/// nothing is found only when the files hold none of them.
pub proof fn law_first_present_is_first_file(candidates: Seq<Seq<char>>, files: Seq<Seq<char>>)
    ensures
        match first_present(candidates, files) {
            Some(x) => exists|i: int|
                0 <= i < candidates.len() && candidates[i] == x && files.contains(x) && forall|j: int|
                    0 <= j < i ==> !files.contains(#[trigger] candidates[j]),
            None => forall|i: int| 0 <= i < candidates.len() ==> !files.contains(#[trigger] candidates[i]),
        },
    decreases candidates.len(),
{
    if candidates.len() > 0 {
        let t = candidates.drop_first();
        law_first_present_is_first_file(t, files);
        if !files.contains(candidates[0]) {
            match first_present(t, files) {
                Some(x) => {
                    let i = choose|i: int|
                        0 <= i < t.len() && t[i] == x && files.contains(x) && forall|j: int|
                            0 <= j < i ==> !files.contains(#[trigger] t[j]);
                    assert(candidates[i + 1] == x);
                    assert forall|j: int| 0 <= j < i + 1 implies !files.contains(
                        #[trigger] candidates[j],
                    ) by {
                        if j > 0 {
                            assert(candidates[j] == t[j - 1]);
                        }
                    }
                },
                None => {
                    assert forall|i: int| 0 <= i < candidates.len() implies !files.contains(
                        #[trigger] candidates[i],
                    ) by {
                        if i > 0 {
                            assert(candidates[i] == t[i - 1]);
                        }
                    }
                },
            }
        }
    }
}

proof fn lemma_last_index_of_absent(s: Seq<char>, c: char)
    requires
        forall|i: int| 0 <= i < s.len() ==> s[i] != c,
    ensures
        last_index_of(s, c) is None,
    decreases s.len(),
{
    if s.len() > 0 {
        assert(s.last() == s[s.len() - 1]);
        lemma_last_index_of_absent(s.drop_last(), c);
    }
}

proof fn lemma_last_index_of_marker(s: Seq<char>, c: char, v: Seq<char>)
    requires
        forall|i: int| 0 <= i < v.len() ==> v[i] != c,
    ensures
        last_index_of(s + seq![c] + v, c) == Some(s.len() as int),
    decreases v.len(),
{
    let w = s + seq![c] + v;
    if v.len() > 0 {
        assert(w.last() == v[v.len() - 1]);
        assert(w.drop_last() =~= s + seq![c] + v.drop_last());
        lemma_last_index_of_marker(s, c, v.drop_last());
    } else {
        assert(w.last() == c);
    }
}

proof fn lemma_trim_unchanged(s: Seq<char>)
    requires
        s.len() > 0,
        !is_whitespace(s[0]),
        !is_whitespace(s.last()),
    ensures
        trim(s) == s,
{
}

/// What `trim` leaves is a stretch of the text.
proof fn lemma_trim_stretch(s: Seq<char>)
    ensures
        exists|a: int, b: int| 0 <= a <= b <= s.len() && trim(s) == s.subrange(a, b),
{
    lemma_trim_start_suffix(s);
    let a = choose|a: int| 0 <= a <= s.len() && trim_start(s) == s.skip(a);
    let t = trim_start(s);
    lemma_trim_end_prefix(t);
    let b = choose|b: int| 0 <= b <= t.len() && trim_end(t) == t.take(b);
    assert(trim(s) =~= s.subrange(a, a + b));
}

proof fn lemma_trim_start_suffix(s: Seq<char>)
    ensures
        exists|a: int| 0 <= a <= s.len() && trim_start(s) == s.skip(a),
    decreases s.len(),
{
    if s.len() > 0 && is_whitespace(s[0]) {
        lemma_trim_start_suffix(s.drop_first());
        let a = choose|a: int|
            0 <= a <= s.drop_first().len() && trim_start(s.drop_first()) == s.drop_first().skip(a);
        assert(s.drop_first().skip(a) =~= s.skip(a + 1));
    } else {
        assert(s.skip(0) =~= s);
    }
}

proof fn lemma_trim_end_prefix(s: Seq<char>)
    ensures
        exists|b: int| 0 <= b <= s.len() && trim_end(s) == s.take(b),
    decreases s.len(),
{
    if s.len() > 0 && is_whitespace(s.last()) {
        lemma_trim_end_prefix(s.drop_last());
        let b = choose|b: int|
            0 <= b <= s.drop_last().len() && trim_end(s.drop_last()) == s.drop_last().take(b);
        assert(s.drop_last().take(b) =~= s.take(b));
    } else {
        assert(s.take(s.len() as int) =~= s);
    }
}

/// A dependency whose spec is a plain version range or tag (no `:` in it,
/// so no `npm:` alias) installs the package its key names.
pub proof fn law_plain_dependency_installs_its_key(key: Seq<char>, spec: Seq<char>)
    requires
        forall|i: int| 0 <= i < spec.len() ==> spec[i] != ':',
    ensures
        dependency_package_name_of(key, spec) == Some(key),
{
    reveal_strlit("npm:");
    lemma_trim_stretch(spec);
    let t = trim(spec);
    if starts_with(t, "npm:"@) {
        let (a, b) = choose|a: int, b: int| 0 <= a <= b <= spec.len() && t == spec.subrange(a, b);
        assert(t.take(4)[3] == ':');
        assert(t[3] == spec[a + 3]);
    }
}

/// An npm alias installs the package it names: `npm:name` and
/// `npm:name@version` install `name`, for a non-empty `name` with no `@`
/// after its first character (so `@scope/pkg` too) and a version without
/// `@`, neither holding whitespace.
pub proof fn law_npm_alias_installs_named_package(
    key: Seq<char>,
    name: Seq<char>,
    version: Seq<char>,
)
    requires
        name.len() > 0,
        forall|i: int| 1 <= i < name.len() ==> name[i] != '@',
        forall|i: int| 0 <= i < version.len() ==> version[i] != '@',
        forall|i: int| 0 <= i < name.len() ==> !is_whitespace(#[trigger] name[i]),
        forall|i: int| 0 <= i < version.len() ==> !is_whitespace(#[trigger] version[i]),
    ensures
        dependency_package_name_of(key, "npm:"@ + name) == Some(name),
        dependency_package_name_of(key, "npm:"@ + name + "@"@ + version) == Some(name),
{
    reveal_strlit("npm:");
    reveal_strlit("@");
    let bare = "npm:"@ + name;
    let full = "npm:"@ + name + "@"@ + version;
    assert(bare[0] == 'n');
    assert(full[0] == 'n');
    assert(bare.last() == name[name.len() - 1]);
    if version.len() > 0 {
        assert(full.last() == version[version.len() - 1]);
    } else {
        assert(full.last() == '@');
    }
    lemma_trim_unchanged(bare);
    lemma_trim_unchanged(full);
    assert(bare.take(4) =~= "npm:"@);
    assert(full.take(4) =~= "npm:"@);
    let a1 = bare.skip(4);
    let a2 = full.skip(4);
    assert(a1 =~= name);
    assert(a2 =~= name + seq!['@'] + version);
    if name[0] == '@' {
        let rest = name.drop_first();
        assert forall|i: int| 0 <= i < rest.len() implies rest[i] != '@' by {
            assert(rest[i] == name[i + 1]);
        }
        lemma_last_index_of_absent(rest, '@');
        assert(a1.drop_first() =~= rest);
        lemma_last_index_of_marker(rest, '@', version);
        assert(a2.drop_first() =~= rest + seq!['@'] + version);
        assert(a2.take(name.len() as int) =~= name);
    } else {
        assert forall|i: int| 0 <= i < name.len() implies name[i] != '@' by {}
        lemma_last_index_of_absent(name, '@');
        lemma_last_index_of_marker(name, '@', version);
        assert(a2.take(name.len() as int) =~= name);
    }
}

/// Each directory listed for a section's entries is `root/node_modules/key`
/// of an entry whose spec is a string and whose package is exactly
/// `typescript`.
pub proof fn law_section_dir_installs_typescript(es: Seq<Entry>, root: Seq<char>, j: int)
    requires
        0 <= j < section_dirs(es, root).len(),
    ensures
        exists|i: int|
            #![trigger es[i]]
            0 <= i < es.len() && es[i].1 is Str && dependency_package_name_of(
                es[i].0,
                es[i].1->Str_0,
            ) == Some("typescript"@) && section_dirs(es, root)[j] == root + "/node_modules/"@
                + es[i].0,
    decreases es.len(),
{
    let t = es.drop_first();
    let d = section_dirs(es, root);
    let rest = section_dirs(t, root);
    let first_installs = es[0].1 is Str && dependency_package_name_of(es[0].0, es[0].1->Str_0)
        == Some("typescript"@);
    if first_installs {
        assert(d == seq![root + "/node_modules/"@ + es[0].0] + rest);
    } else {
        assert(d == rest);
    }
    if first_installs && j == 0 {
        assert(d[0] == root + "/node_modules/"@ + es[0].0);
    } else {
        let k = if first_installs {
            j - 1
        } else {
            j
        };
        assert(d[j] == rest[k]);
        law_section_dir_installs_typescript(t, root, k);
        let i = choose|i: int|
            #![trigger t[i]]
            0 <= i < t.len() && t[i].1 is Str && dependency_package_name_of(t[i].0, t[i].1->Str_0)
                == Some("typescript"@) && rest[k] == root + "/node_modules/"@ + t[i].0;
        assert(es[i + 1] == t[i]);
    }
}

/// Every entry of a section whose spec is a string and whose package is
/// exactly `typescript` has its directory `root/node_modules/key` listed.
pub proof fn law_typescript_entry_dir_listed(es: Seq<Entry>, root: Seq<char>, i: int)
    requires
        0 <= i < es.len(),
        es[i].1 is Str,
        dependency_package_name_of(es[i].0, es[i].1->Str_0) == Some("typescript"@),
    ensures
        section_dirs(es, root).contains(root + "/node_modules/"@ + es[i].0),
    decreases es.len(),
{
    let t = es.drop_first();
    let d = section_dirs(es, root);
    let rest = section_dirs(t, root);
    let x = root + "/node_modules/"@ + es[i].0;
    if i == 0 {
        assert(d == seq![x] + rest);
        assert(d[0] == x);
    } else {
        assert(t[i - 1] == es[i]);
        law_typescript_entry_dir_listed(t, root, i - 1);
        let k = choose|k: int| 0 <= k < rest.len() && rest[k] == x;
        let here = d.len() - rest.len();
        assert(d.skip(here) =~= rest);
        assert(d[here + k] == rest[k]);
    }
}

/// Each directory listed for a manifest is `root/node_modules/key` of an
/// entry, under `dependencies`, `devDependencies` or `peerDependencies`,
/// whose spec is a string and whose package is exactly `typescript`.
pub proof fn law_dependency_dir_installs_typescript(pkg: Json, root: Seq<char>, j: int)
    requires
        0 <= j < typescript_dependency_dirs_of(pkg, root).len(),
    ensures
        exists|s: Seq<char>, d: Seq<Entry>, i: int|
            #![trigger obj_get(pkg->Object_0, s), d[i]]
            (s == "dependencies"@ || s == "devDependencies"@ || s == "peerDependencies"@)
                && pkg is Object && obj_get(pkg->Object_0, s) == Some(Json::Object(d)) && 0 <= i
                < d.len() && d[i].1 is Str && dependency_package_name_of(d[i].0, d[i].1->Str_0)
                == Some("typescript"@) && typescript_dependency_dirs_of(pkg, root)[j] == root
                + "/node_modules/"@ + d[i].0,
{
    let e1 = section_entries(pkg, "dependencies"@);
    let e2 = section_entries(pkg, "devDependencies"@);
    let e3 = section_entries(pkg, "peerDependencies"@);
    let a = section_dirs(e1, root);
    let b = section_dirs(e2, root);
    let c = section_dirs(e3, root);
    let all = typescript_dependency_dirs_of(pkg, root);
    assert(all == a + b + c);
    let empty = Seq::<Entry>::empty();
    assert(section_dirs(empty, root) == Seq::<Seq<char>>::empty());
    if j < a.len() {
        law_section_dir_installs_typescript(e1, root, j);
        assert(e1.len() > 0);
        let i = choose|i: int|
            #![trigger e1[i]]
            0 <= i < e1.len() && e1[i].1 is Str && dependency_package_name_of(
                e1[i].0,
                e1[i].1->Str_0,
            ) == Some("typescript"@) && a[j] == root + "/node_modules/"@ + e1[i].0;
        assert(all[j] == a[j]);
        assert(obj_get(pkg->Object_0, "dependencies"@) == Some(Json::Object(e1)));
    } else if j < a.len() + b.len() {
        law_section_dir_installs_typescript(e2, root, j - a.len());
        assert(e2.len() > 0);
        let i = choose|i: int|
            #![trigger e2[i]]
            0 <= i < e2.len() && e2[i].1 is Str && dependency_package_name_of(
                e2[i].0,
                e2[i].1->Str_0,
            ) == Some("typescript"@) && b[j - a.len()] == root + "/node_modules/"@ + e2[i].0;
        assert(all[j] == b[j - a.len()]);
        assert(obj_get(pkg->Object_0, "devDependencies"@) == Some(Json::Object(e2)));
    } else {
        law_section_dir_installs_typescript(e3, root, j - a.len() - b.len());
        assert(e3.len() > 0);
        let i = choose|i: int|
            #![trigger e3[i]]
            0 <= i < e3.len() && e3[i].1 is Str && dependency_package_name_of(
                e3[i].0,
                e3[i].1->Str_0,
            ) == Some("typescript"@) && c[j - a.len() - b.len()] == root + "/node_modules/"@
                + e3[i].0;
        assert(all[j] == c[j - a.len() - b.len()]);
        assert(obj_get(pkg->Object_0, "peerDependencies"@) == Some(Json::Object(e3)));
    }
}

/// The native `tsc` is looked for, in this order, in the package itself
/// (`dir/lib/tsc`), in the platform package hoisted beside it and in the
/// platform package nested in it; the platform package is
/// `@typescript/typescript-<darwin|linux|win32>-<arm64|x64>`, the binary
/// `tsc.exe` on Windows, and 32-bit x86 has none.
pub proof fn law_native_server_candidates(os: Os, arch: Architecture, dir: Seq<char>)
    ensures
        arch is X86 ==> native_server_candidates_of(os, arch, dir) is None,
        !(arch is X86) ==> ({
            let platform = if os is Mac {
                "darwin"@
            } else if os is Linux {
                "linux"@
            } else {
                "win32"@
            };
            let a = if arch is Aarch64 {
                "arm64"@
            } else {
                "x64"@
            };
            let exe = if os is Windows {
                "tsc.exe"@
            } else {
                "tsc"@
            };
            let package = "@typescript/typescript-"@ + platform + "-"@ + a;
            native_server_candidates_of(os, arch, dir) == Some(
                seq![
                    dir + "/lib/"@ + exe,
                    dir + "/../"@ + package + "/lib/"@ + exe,
                    dir + "/node_modules/"@ + package + "/lib/"@ + exe,
                ],
            )
        }),
{
}

/// Every entry under `dependencies`, `devDependencies` or
/// `peerDependencies` whose spec is a string and whose package is exactly
/// `typescript` has its directory `root/node_modules/key` listed.
pub proof fn law_typescript_manifest_entry_listed(
    pkg: Json,
    root: Seq<char>,
    s: Seq<char>,
    d: Seq<Entry>,
    i: int,
)
    requires
        s == "dependencies"@ || s == "devDependencies"@ || s == "peerDependencies"@,
        pkg is Object,
        obj_get(pkg->Object_0, s) == Some(Json::Object(d)),
        0 <= i < d.len(),
        d[i].1 is Str,
        dependency_package_name_of(d[i].0, d[i].1->Str_0) == Some("typescript"@),
    ensures
        typescript_dependency_dirs_of(pkg, root).contains(root + "/node_modules/"@ + d[i].0),
{
    let a = section_dirs(section_entries(pkg, "dependencies"@), root);
    let b = section_dirs(section_entries(pkg, "devDependencies"@), root);
    let c = section_dirs(section_entries(pkg, "peerDependencies"@), root);
    let all = typescript_dependency_dirs_of(pkg, root);
    assert(all == a + b + c);
    assert(section_entries(pkg, s) == d);
    law_typescript_entry_dir_listed(d, root, i);
    let x = root + "/node_modules/"@ + d[i].0;
    let here = section_dirs(d, root);
    let k = choose|k: int| 0 <= k < here.len() && here[k] == x;
    if s == "dependencies"@ {
        assert(all[k] == a[k]);
    } else if s == "devDependencies"@ {
        assert(all[a.len() + k] == b[k]);
    } else {
        assert(all[a.len() + b.len() + k] == c[k]);
    }
}

/// An `npm:` alias that names nothing installs no package.
pub proof fn law_empty_npm_alias_installs_nothing(key: Seq<char>)
    ensures
        dependency_package_name_of(key, "npm:"@) is None,
{
    reveal_strlit("npm:");
    let spec = "npm:"@;
    assert(spec[0] == 'n' && spec.last() == ':');
    lemma_trim_unchanged(spec);
    assert(spec.take(4) =~= spec);
    assert(spec.skip(4) =~= Seq::<char>::empty());
}

/// A version whose major number is a single digit, with or without a
/// leading `v` and followed by anything that is not a digit (`7.0.2`,
/// `v6.1-beta`, `9`), passes exactly when that digit is 7, 8 or 9; below 7
/// it is refused as too old.
pub proof fn law_single_digit_major_version(with_v: bool, major: char, rest: Seq<char>)
    requires
        is_ascii_digit(major),
        rest.len() == 0 || !is_ascii_digit(rest[0]),
    ensures
        ({
            let version = (if with_v {
                seq!['v']
            } else {
                Seq::<char>::empty()
            }) + seq![major] + rest;
            &&& '7' <= major ==> typescript_7_check(version) == Ok::<(), Seq<char>>(())
            &&& major < '7' ==> typescript_7_check(version) == Err::<(), Seq<char>>(
                "TypeScript LSP requires TypeScript 7 or newer, got `"@ + version + "`"@,
            )
        }),
{
    let version = (if with_v {
        seq!['v']
    } else {
        Seq::<char>::empty()
    }) + seq![major] + rest;
    let v = seq![major] + rest;
    if with_v {
        assert(version[0] == 'v');
        assert(version.drop_first() =~= v);
    } else {
        assert(version =~= v);
        assert(version[0] == major);
    }
    assert(strip_v(version) == v);
    lemma_leading_digits_concat(seq![major], rest);
    let m = v.take(1);
    assert(m =~= seq![major]);
    assert(m.drop_last() =~= Seq::<char>::empty());
    assert(decimal_value(Seq::<char>::empty()) == 0);
    assert(m.last() == major);
    assert(decimal_value(m) == ((major as u32) - ('0' as u32)) as nat);
}

} // verus!
