//! The configuration a build runs under, and the vocabulary of the `cfg`
//! namespaces.
//!
//! The vocabulary is a closed set: a key outside it fails type checking, so
//! the keys in actual use can be read off the manifests.

use vstd::prelude::*;
use crate::text::{
    chars_eq, chars_of, copy_string, from_chars, has_prefix, owned, push_char, push_str,
    split_chars, split_on, starts_with, str_eq, lemma_split_on_nonempty,
};
use crate::strs::{NameMap, NameSet};
use crate::value::{CfgKey, Ns, ns_text};

verus! {

/// The optimisation level.
#[derive(Clone, Copy, PartialEq, Eq, Debug)]
pub enum Opt {
    Debug,
    Release,
}

pub open spec fn opt_text(o: Opt) -> Seq<char> {
    match o {
        Opt::Debug => "debug"@,
        Opt::Release => "release"@,
    }
}

impl Opt {
    pub fn name(self) -> (r: &'static str)
        ensures
            r@ == opt_text(self),
    {
        match self {
            Opt::Debug => "debug",
            Opt::Release => "release",
        }
    }

    pub fn parse(s: &str) -> (r: Option<Opt>)
        ensures
            r == (if s@ == "debug"@ {
                Some(Opt::Debug)
            } else if s@ == "release"@ {
                Some(Opt::Release)
            } else {
                None
            }),
    {
        if str_eq(s, "debug") {
            Some(Opt::Debug)
        } else if str_eq(s, "release") {
            Some(Opt::Release)
        } else {
            None
        }
    }
}

/// How arguments are spelled for the tools: GNU (gcc, clang, MinGW) or
/// MSVC (cl, clang-cl). Anything else follows GNU.
#[derive(Clone, Copy, PartialEq, Eq, Debug)]
pub enum Style {
    Gnu,
    Msvc,
}

pub open spec fn style_text(s: Style) -> Seq<char> {
    match s {
        Style::Gnu => "gnu"@,
        Style::Msvc => "msvc"@,
    }
}

impl Style {
    pub fn parse(s: &str) -> (r: Option<Style>)
        ensures
            r == (if s@ == "gnu"@ {
                Some(Style::Gnu)
            } else if s@ == "msvc"@ {
                Some(Style::Msvc)
            } else {
                None
            }),
    {
        if str_eq(s, "gnu") {
            Some(Style::Gnu)
        } else if str_eq(s, "msvc") {
            Some(Style::Msvc)
        } else {
            None
        }
    }

    pub fn name(self) -> (r: &'static str)
        ensures
            r@ == style_text(self),
    {
        match self {
            Style::Gnu => "gnu",
            Style::Msvc => "msvc",
        }
    }
}

/// The style a triple implies: MSVC when its last component is `msvc`.
pub open spec fn triple_style_of(triple: Seq<char>) -> Style {
    if split_on(triple, '-').last() == "msvc"@ {
        Style::Msvc
    } else {
        Style::Gnu
    }
}

/// Whether `part` holds exactly the characters of `lit`.
fn chars_is(part: &[char], lit: &str) -> (r: bool)
    ensures
        r == (part@ == lit@),
{
    let l = chars_of(lit);
    chars_eq(part, l.as_slice())
}

/// The style the target triple implies. `[toolchain] style` overrides it.
pub fn triple_style(triple: &str) -> (r: Style)
    ensures
        r == triple_style_of(triple@),
{
    let t = chars_of(triple);
    let parts = split_chars(t.as_slice(), '-');
    proof {
        lemma_split_on_nonempty(triple@, '-');
    }
    let last = &parts[parts.len() - 1];
    if chars_is(last.as_slice(), "msvc") {
        Style::Msvc
    } else {
        Style::Gnu
    }
}

/// The tools a toolchain consists of: (name, GNU default, MSVC default).
/// The GNU linker is empty: the compiler driver links.
pub open spec fn tool_table() -> Seq<(Seq<char>, Seq<char>, Seq<char>)> {
    seq![
        ("c"@, "cc"@, "cl"@),
        ("cxx"@, "c++"@, "cl"@),
        ("ar"@, "ar"@, "lib"@),
        ("link"@, ""@, "link"@),
        ("objcopy"@, "objcopy"@, "objcopy"@),
        ("size"@, "size"@, "size"@),
        ("nm"@, "nm"@, "dumpbin"@),
        ("objdump"@, "objdump"@, "dumpbin"@),
        ("readelf"@, "readelf"@, "dumpbin"@),
        ("debug"@, "gdb"@, "cdb"@),
    ]
}

/// The table of tools, as (name, GNU default, MSVC default).
pub fn tools() -> (v: Vec<(&'static str, &'static str, &'static str)>)
    ensures
        v@.len() == tool_table().len(),
        forall|i: int|
            0 <= i < v@.len() ==> (#[trigger] v@[i].0@, v@[i].1@, v@[i].2@) == tool_table()[i],
{
    let v = vec![
        ("c", "cc", "cl"),
        ("cxx", "c++", "cl"),
        ("ar", "ar", "lib"),
        ("link", "", "link"),
        ("objcopy", "objcopy", "objcopy"),
        ("size", "size", "size"),
        ("nm", "nm", "dumpbin"),
        ("objdump", "objdump", "dumpbin"),
        ("readelf", "readelf", "dumpbin"),
        ("debug", "gdb", "cdb"),
    ];
    assert(v@.len() == 10);
    v
}

/// The default command of tool `name` in a style; empty for a name that is
/// not in the table.
pub open spec fn default_tool_text(name: Seq<char>, style: Style) -> Seq<char> {
    default_tool_from(tool_table(), name, style)
}

pub open spec fn default_tool_from(
    table: Seq<(Seq<char>, Seq<char>, Seq<char>)>,
    name: Seq<char>,
    style: Style,
) -> Seq<char>
    decreases table.len(),
{
    if table.len() == 0 {
        ""@
    } else if table[0].0 == name {
        match style {
            Style::Gnu => table[0].1,
            Style::Msvc => table[0].2,
        }
    } else {
        default_tool_from(table.drop_first(), name, style)
    }
}

/// The default command of a tool. It depends on the style: GNU's `ar` is
/// MSVC's `lib`.
pub fn default_tool(name: &str, style: Style) -> (r: &'static str)
    ensures
        r@ == default_tool_text(name@, style),
{
    let table = tools();
    let mut i: usize = 0;
    assert(tool_table().skip(0) =~= tool_table());
    while i < table.len()
        invariant
            i <= table@.len(),
            table@.len() == tool_table().len(),
            forall|j: int|
                0 <= j < table@.len() ==> (#[trigger] table@[j].0@, table@[j].1@, table@[j].2@)
                    == tool_table()[j],
            default_tool_text(name@, style) == default_tool_from(
                tool_table().skip(i as int),
                name@,
                style,
            ),
        decreases table.len() - i,
    {
        let ghost rest = tool_table().skip(i as int);
        assert(rest[0] == tool_table()[i as int]);
        assert(rest.drop_first() =~= tool_table().skip(i + 1));
        let (n, gnu, msvc) = table[i];
        if str_eq(n, name) {
            return match style {
                Style::Gnu => gnu,
                Style::Msvc => msvc,
            };
        }
        i += 1;
    }
    ""
}

/// Whether a character is kept by `path_safe`.
pub open spec fn path_safe_char(c: char) -> bool {
    ('a' <= c && c <= 'z') || ('A' <= c && c <= 'Z') || ('0' <= c && c <= '9') || c == '_' || c
        == '-' || c == '.' || c == '+'
}

/// `s` as one safe path component: kept characters stay, any other becomes `--`.
pub open spec fn path_safe_text(s: Seq<char>) -> Seq<char>
    decreases s.len(),
{
    if s.len() == 0 {
        Seq::empty()
    } else if path_safe_char(s.last()) {
        path_safe_text(s.drop_last()).push(s.last())
    } else {
        path_safe_text(s.drop_last()) + "--"@
    }
}

/// `s` in a form safe as one path component.
///
/// The replacement is `--` rather than one character so that `a/b` and
/// `a-b` stay apart: `a/b` becomes `a--b`, `a-b` stays `a-b`.
pub fn path_safe(s: &str) -> (r: String)
    ensures
        r@ == path_safe_text(s@),
{
    let cs = chars_of(s);
    let mut out = String::new();
    let mut i: usize = 0;
    while i < cs.len()
        invariant
            cs@ == s@,
            i <= cs@.len(),
            out@ == path_safe_text(s@.take(i as int)),
        decreases cs.len() - i,
    {
        let c = cs[i];
        assert(s@.take(i + 1).drop_last() =~= s@.take(i as int));
        assert(s@.take(i + 1).last() == c);
        if ('a' <= c && c <= 'z') || ('A' <= c && c <= 'Z') || ('0' <= c && c <= '9') || c == '_'
            || c == '-' || c == '.' || c == '+' {
            push_char(&mut out, c);
        } else {
            push_str(&mut out, "--");
        }
        i += 1;
    }
    assert(s@.take(cs@.len() as int) =~= s@);
    out
}

pub proof fn lemma_path_safe_has_no_slash(s: Seq<char>)
    ensures
        !path_safe_text(s).contains('/'),
    decreases s.len(),
{
    reveal_strlit("--");
    if s.len() > 0 {
        lemma_path_safe_has_no_slash(s.drop_last());
        let prev = path_safe_text(s.drop_last());
        if path_safe_char(s.last()) {
            assert forall|i: int| 0 <= i < prev.push(s.last()).len() implies prev.push(s.last())[i]
                != '/' by {
                if i < prev.len() {
                    assert(prev.push(s.last())[i] == prev[i]);
                }
            }
        } else {
            assert forall|i: int| 0 <= i < (prev + "--"@).len() implies (prev + "--"@)[i]
                != '/' by {
                if i < prev.len() {
                    assert((prev + "--"@)[i] == prev[i]);
                }
            }
        }
    }
}

/// The machine the build runs on: its operating system and architecture,
/// in the vocabulary of `host.os` and `host.arch`.
#[derive(Clone, Debug)]
pub struct Host {
    pub os: String,
    pub arch: String,
}

impl Host {
    pub fn new(os: &str, arch: &str) -> (h: Host)
        ensures
            h.os@ == os@,
            h.arch@ == arch@,
    {
        Host { os: owned(os), arch: owned(arch) }
    }
}

/// The triple assumed for a host before any tool has named one.
pub open spec fn default_triple_text(os: Seq<char>, arch: Seq<char>) -> Seq<char> {
    if os == "linux"@ {
        arch + "-unknown-linux-gnu"@
    } else if os == "macos"@ {
        arch + "-apple-darwin"@
    } else if os == "windows"@ {
        arch + "-pc-windows-msvc"@
    } else {
        arch + "-unknown-"@ + os
    }
}

/// The host's target triple, assembled from its OS and architecture. A
/// probe of the C compiler may replace it later (`Config::set_host`).
pub fn default_triple(host: &Host) -> (r: String)
    ensures
        r@ == default_triple_text(host.os@, host.arch@),
{
    triple_of(host.os.as_str(), host.arch.as_str())
}

fn triple_of(os: &str, arch: &str) -> (r: String)
    ensures
        r@ == default_triple_text(os@, arch@),
{
    let mut s = owned(arch);
    if str_eq(os, "linux") {
        push_str(&mut s, "-unknown-linux-gnu");
    } else if str_eq(os, "macos") {
        push_str(&mut s, "-apple-darwin");
    } else if str_eq(os, "windows") {
        push_str(&mut s, "-pc-windows-msvc");
    } else {
        push_str(&mut s, "-unknown-");
        push_str(&mut s, os);
    }
    s
}

/// The configuration actions are generated under.
///
/// Evaluating a manifest does not read it, so switching `--release` or
/// `--target` does not evaluate again.
#[derive(Clone, Debug)]
pub struct Config {
    pub opt: Opt,
    /// The target triple
    pub target: String,
    pub host_os: String,
    pub host_arch: String,
    /// Enabled features, as `<package>/<feature>`: features of the same name
    /// in different packages are different features
    pub features: NameSet,
    /// The package being specialised; `feature.<name>` is read in it. Empty
    /// is the configuration itself, belonging to no package
    pub package: String,
    /// Package name to version; `pkg.version` reads the current package's
    pub versions: NameMap,
    /// Tool name to command. The table gives the defaults and a
    /// `[toolchain]` declaration overrides them
    pub tools: NameMap,
    /// How arguments are spelled
    pub style: Style,
    /// The host's triple
    pub host: String,
}

/// A value a configuration key reads.
#[derive(Clone, PartialEq, Eq, Debug)]
pub enum CfgValue {
    Str(String),
    Bool(bool),
}

/// What a configuration value means in contracts.
pub enum CfgView {
    Str(Seq<char>),
    Bool(bool),
}

pub open spec fn cfg_view(v: CfgValue) -> CfgView {
    match v {
        CfgValue::Str(s) => CfgView::Str(s@),
        CfgValue::Bool(b) => CfgView::Bool(b),
    }
}

/// The text of a boolean, as `to_string` writes it.
pub open spec fn bool_text(b: bool) -> Seq<char> {
    if b {
        "true"@
    } else {
        "false"@
    }
}

pub open spec fn cfg_value_text(v: CfgValue) -> Seq<char> {
    match v {
        CfgValue::Str(s) => s@,
        CfgValue::Bool(b) => bool_text(b),
    }
}

impl CfgValue {
    pub fn display(&self) -> (s: String)
        ensures
            s@ == cfg_value_text(*self),
    {
        match self {
            CfgValue::Str(s) => copy_string(s),
            CfgValue::Bool(b) => if *b {
                owned("true")
            } else {
                owned("false")
            },
        }
    }
}

/// The first value `entries` holds for every tool of the table, in a style.
pub open spec fn tools_match_style(tools: NameMap, style: Style) -> bool {
    forall|i: int|
        0 <= i < tool_table().len() ==> tools.lookup(#[trigger] tool_table()[i].0) == Some(
            default_tool_text(tool_table()[i].0, style),
        )
}

impl Config {
    /// The package being specialised.
    pub open spec fn package_name(self) -> Seq<char> {
        self.package@
    }

    /// The command chosen for tool `name`.
    pub open spec fn tool_command(self, name: Seq<char>) -> Option<Seq<char>> {
        self.tools.lookup(name)
    }

    /// The default configuration for the host.
    pub fn host_default(host: &Host) -> (c: Config)
        ensures
            c.target@ == default_triple_text(host.os@, host.arch@),
            c.opt == Opt::Debug,
            c.host_os@ == host.os@,
            c.host_arch@ == host.arch@,
            c.host@ == default_triple_text(host.os@, host.arch@),
            c.features.wf(),
            c.features.view().len() == 0,
            c.package_name().len() == 0,
            forall|k: Seq<char>| c.versions.lookup(k) is None,
            c.versions.sorted(),
            c.tools.sorted(),
            c.style == triple_style_of(c.target@),
            forall|i: int|
                0 <= i < tool_table().len() ==> c.tool_command(#[trigger] tool_table()[i].0)
                    == Some(default_tool_text(tool_table()[i].0, c.style)),
    {
        Config::for_target(default_triple(host), host)
    }

    /// The default configuration for a target triple. The style and the
    /// tools' defaults follow from the triple.
    pub fn for_target(target: String, host: &Host) -> (c: Config)
        ensures
            c.target@ == target@,
            c.opt == Opt::Debug,
            c.host_os@ == host.os@,
            c.host_arch@ == host.arch@,
            c.host@ == default_triple_text(host.os@, host.arch@),
            c.features.wf(),
            c.features.view().len() == 0,
            c.package_name().len() == 0,
            forall|k: Seq<char>| c.versions.lookup(k) is None,
            c.versions.sorted(),
            c.tools.sorted(),
            c.style == triple_style_of(target@),
            forall|i: int|
                0 <= i < tool_table().len() ==> c.tool_command(#[trigger] tool_table()[i].0)
                    == Some(default_tool_text(tool_table()[i].0, c.style)),
    {
        let style = triple_style(target.as_str());
        let mut tools = NameMap::new();
        fill_tools(&mut tools, style);
        Config {
            opt: Opt::Debug,
            target,
            host_os: copy_string(&host.os),
            host_arch: copy_string(&host.arch),
            features: NameSet::new(),
            package: String::new(),
            versions: NameMap::new(),
            tools,
            style,
            host: default_triple(host),
        }
    }

    /// Changes the style. Tools not declared explicitly follow it to the
    /// new style's defaults.
    pub fn set_style(&mut self, style: Style)
        requires
            old(self).tools.sorted(),
        ensures
            final(self).tools.sorted(),
            final(self).style == style,
            forall|i: int|
                0 <= i < tool_table().len() ==> final(self).tool_command(#[trigger] tool_table()[i].0)
                    == Some(default_tool_text(tool_table()[i].0, style)),
            forall|n: Seq<char>|
                (forall|i: int| 0 <= i < tool_table().len() ==> tool_table()[i].0 != n)
                    ==> final(self).tool_command(n) == old(self).tool_command(n),
            final(self).opt == old(self).opt,
            final(self).target == old(self).target,
            final(self).host == old(self).host,
            final(self).features == old(self).features,
            final(self).versions == old(self).versions,
            final(self).package_name() == old(self).package_name(),
    {
        self.style = style;
        fill_tools(&mut self.tools, style);
    }

    /// Whether the target is the host machine. Both the host's triple and
    /// the triple assembled from its OS and architecture count.
    pub fn targets_host(&self) -> (r: bool)
        ensures
            r == (self.target@ == self.host@ || self.target@ == default_triple_text(
                self.host_os@,
                self.host_arch@,
            )),
    {
        if str_eq(self.target.as_str(), self.host.as_str()) {
            return true;
        }
        let d = triple_of(self.host_os.as_str(), self.host_arch.as_str());
        str_eq(self.target.as_str(), d.as_str())
    }

    /// Replaces the host triple with the one a tool named.
    pub fn set_host(&mut self, triple: String)
        ensures
            final(self).host@ == triple@,
            final(self).opt == old(self).opt,
            final(self).target == old(self).target,
            final(self).features == old(self).features,
            final(self).versions == old(self).versions,
            final(self).style == old(self).style,
            final(self).package_name() == old(self).package_name(),
            forall|n: Seq<char>| final(self).tool_command(n) == old(self).tool_command(n),
    {
        self.host = triple;
    }

    /// The command of a tool; empty for a tool with no command.
    pub fn tool(&self, name: &str) -> (r: &str)
        ensures
            r@ == match self.tool_command(name@) {
                Some(c) => c,
                None => ""@,
            },
    {
        match self.tools.get(name) {
            Some(c) => c.as_str(),
            None => "",
        }
    }

    /// The tool that links. In GNU style the compiler driver links: an empty
    /// `link` falls back to the C++ or C compiler.
    pub fn linker(&self, needs_cxx: bool) -> (r: &str)
        ensures
            ({
                let link = match self.tool_command("link"@) {
                    Some(c) => c,
                    None => ""@,
                };
                let driver = if needs_cxx {
                    "cxx"@
                } else {
                    "c"@
                };
                r@ == if link.len() == 0 {
                    match self.tool_command(driver) {
                        Some(c) => c,
                        None => ""@,
                    }
                } else {
                    link
                }
            }),
    {
        let link = self.tool("link");
        if link.unicode_len() == 0 {
            self.tool(if needs_cxx {
                "cxx"
            } else {
                "c"
            })
        } else {
            link
        }
    }

    /// A copy for specialising the values of package `name`. Only
    /// `feature.<name>` and `pkg.*` change with the package.
    pub fn for_package(&self, name: &str) -> (c: Config)
        ensures
            c.package_name() == name@,
            c.opt == self.opt,
            c.target@ == self.target@,
            c.host_os@ == self.host_os@,
            c.host_arch@ == self.host_arch@,
            c.host@ == self.host@,
            c.style == self.style,
            c.features.view() == self.features.view(),
            c.features.wf() == self.features.wf(),
            forall|k: Seq<char>| c.versions.lookup(k) == self.versions.lookup(k),
            forall|k: Seq<char>| c.tool_command(k) == self.tool_command(k),
            c.versions.sorted() == self.versions.sorted(),
            c.tools.sorted() == self.tools.sorted(),
    {
        let versions = self.versions.copy();
        let tools = self.tools.copy();
        let features = self.features.copy();
        proof {
            assert forall|k: Seq<char>| versions.lookup(k) == self.versions.lookup(k) by {}
        }
        Config {
            opt: self.opt,
            target: copy_string(&self.target),
            host_os: copy_string(&self.host_os),
            host_arch: copy_string(&self.host_arch),
            features,
            package: owned(name),
            versions,
            tools,
            style: self.style,
            host: copy_string(&self.host),
        }
    }

    /// The package being specialised.
    pub fn package(&self) -> (r: &str)
        ensures
            r@ == self.package_name(),
    {
        self.package.as_str()
    }

    /// A package constant: `name` or `version` of the current package.
    pub fn pkg_constant(&self, name: &str) -> (r: Option<&str>)
        ensures
            match r {
                Some(v) => pkg_constant_text(*self, name@) == Some(v@),
                None => pkg_constant_text(*self, name@) is None,
            },
    {
        if str_eq(name, "name") {
            Some(self.package.as_str())
        } else if str_eq(name, "version") {
            match self.versions.get(self.package.as_str()) {
                Some(v) => Some(v.as_str()),
                None => None,
            }
        } else {
            None
        }
    }

    /// Sets the command of a tool, as a `[toolchain]` declaration does.
    pub fn set_tool(&mut self, name: &str, command: String)
        requires
            old(self).tools.sorted(),
        ensures
            final(self).tools.sorted(),
            final(self).tool_command(name@) == Some(command@),
            forall|n: Seq<char>| n != name@ ==> final(self).tool_command(n) == old(self).tool_command(n),
            final(self).opt == old(self).opt,
            final(self).target == old(self).target,
            final(self).host == old(self).host,
            final(self).style == old(self).style,
            final(self).features == old(self).features,
            final(self).versions == old(self).versions,
            final(self).package_name() == old(self).package_name(),
    {
        self.tools.insert(owned(name), command);
    }

    /// A short identifier of the configuration, used as a directory name.
    ///
    /// Characters that could separate path components are replaced
    /// (`path_safe`), so one configuration stays one directory even when a
    /// forwarded feature is named `dep/feature`.
    pub fn id(&self) -> (s: String)
        requires
            self.features.wf(),
        ensures
            s@ == config_id_text(self.target@, self.opt, self.features.view()),
    {
        let mut s = path_safe(self.target.as_str());
        push_str(&mut s, "-");
        push_str(&mut s, self.opt.name());
        if !self.features.is_empty() {
            push_str(&mut s, "-");
            let ghost base = s@;
            let n = self.features.len();
            let mut i: usize = 0;
            while i < n
                invariant
                    n == self.features.view().len(),
                    0 <= i <= n,
                    s@ == base + plus_joined(self.features.view().take(i as int)),
                decreases n - i,
            {
                let ghost before = s@;
                let f = self.features.get(i);
                if i > 0 {
                    push_str(&mut s, "+");
                }
                let t = path_safe(f.as_str());
                push_str(&mut s, t.as_str());
                proof {
                    let fs = self.features.view().take(i + 1);
                    assert(fs.drop_last() =~= self.features.view().take(i as int));
                    assert(fs.last() == self.features.view()[i as int]);
                }
                i += 1;
            }
            assert(self.features.view().take(n as int) =~= self.features.view());
        }
        s
    }

    /// The value a configuration key reads under this configuration.
    pub fn lookup(&self, key: &CfgKey) -> (r: Option<CfgValue>)
        ensures
            match r {
                Some(v) => lookup_text(*self, key.ns, key.name@) == Some(cfg_view(v)),
                None => lookup_text(*self, key.ns, key.name@) is None,
            },
    {
        let name = key.name.as_str();
        match key.ns {
            Ns::Cfg => if str_eq(name, "opt") {
                Some(CfgValue::Str(owned(self.opt.name())))
            } else if str_eq(name, "target") {
                Some(CfgValue::Str(copy_string(&self.target)))
            } else {
                None
            },
            Ns::Host => if str_eq(name, "os") {
                Some(CfgValue::Str(copy_string(&self.host_os)))
            } else if str_eq(name, "arch") {
                Some(CfgValue::Str(copy_string(&self.host_arch)))
            } else {
                None
            },
            Ns::Target => if str_eq(name, "os") {
                Some(CfgValue::Str(owned(triple_os(self.target.as_str()))))
            } else if str_eq(name, "arch") {
                Some(CfgValue::Str(owned(triple_arch(self.target.as_str()))))
            } else if str_eq(name, "env") {
                Some(CfgValue::Str(owned(triple_env(self.target.as_str()))))
            } else {
                None
            },
            Ns::Tc => match self.tools.get(name) {
                Some(t) => Some(CfgValue::Str(copy_string(t))),
                None => None,
            },
            Ns::Feature => {
                let mut qualified = copy_string(&self.package);
                push_str(&mut qualified, "/");
                push_str(&mut qualified, name);
                Some(CfgValue::Bool(self.features.contains(qualified.as_str())))
            },
            Ns::Pkg => match self.pkg_constant(name) {
                Some(v) => Some(CfgValue::Str(owned(v))),
                None => None,
            },
        }
    }
}

/// Sets every tool of the table to its default in a style.
fn fill_tools(map: &mut NameMap, style: Style)
    requires
        old(map).sorted(),
    ensures
        final(map).sorted(),
        tools_match_style(*final(map), style),
        forall|n: Seq<char>|
            (forall|i: int| 0 <= i < tool_table().len() ==> tool_table()[i].0 != n)
                ==> final(map).lookup(n) == old(map).lookup(n),
{
    let table = tools();
    let mut i: usize = 0;
    while i < table.len()
        invariant
            map.sorted(),
            i <= table@.len(),
            table@.len() == tool_table().len(),
            forall|j: int|
                0 <= j < table@.len() ==> (#[trigger] table@[j].0@, table@[j].1@, table@[j].2@)
                    == tool_table()[j],
            forall|j: int|
                0 <= j < i ==> map.lookup(#[trigger] tool_table()[j].0) == Some(
                    default_tool_text(tool_table()[j].0, style),
                ),
            forall|n: Seq<char>|
                (forall|j: int| 0 <= j < i ==> tool_table()[j].0 != n) ==> map.lookup(n)
                    == old(map).lookup(n),
        decreases table.len() - i,
    {
        let name = table[i].0;
        proof {
            reveal_strlit("c");
            reveal_strlit("cxx");
            reveal_strlit("ar");
            reveal_strlit("link");
            reveal_strlit("objcopy");
            reveal_strlit("size");
            reveal_strlit("nm");
            reveal_strlit("objdump");
            reveal_strlit("readelf");
            reveal_strlit("debug");
        }
        let d = default_tool(name, style);
        map.insert(owned(name), owned(d));
        proof {
            assert forall|j: int| 0 <= j < i + 1 implies map.lookup(#[trigger] tool_table()[j].0)
                == Some(default_tool_text(tool_table()[j].0, style)) by {
                if j < i && tool_table()[j].0 != tool_table()[i as int].0 {
                }
            }
        }
        i += 1;
    }
}

/// The constants of the current package.
pub open spec fn pkg_constant_text(c: Config, name: Seq<char>) -> Option<Seq<char>> {
    if name == "name"@ {
        Some(c.package_name())
    } else if name == "version"@ {
        c.versions.lookup(c.package_name())
    } else {
        None
    }
}

/// The names joined with `+`, each made path safe.
pub open spec fn plus_joined(names: Seq<Seq<char>>) -> Seq<char>
    decreases names.len(),
{
    if names.len() == 0 {
        Seq::empty()
    } else if names.len() == 1 {
        path_safe_text(names[0])
    } else {
        plus_joined(names.drop_last()) + "+"@ + path_safe_text(names.last())
    }
}

/// The identifier of a configuration: the target, the optimisation level
/// and the enabled features in increasing order.
pub open spec fn config_id_text(target: Seq<char>, opt: Opt, features: Seq<Seq<char>>) -> Seq<char> {
    let head = path_safe_text(target) + "-"@ + opt_text(opt);
    if features.len() == 0 {
        head
    } else {
        head + "-"@ + plus_joined(features)
    }
}

/// What a key reads under a configuration.
pub open spec fn lookup_text(c: Config, ns: Ns, name: Seq<char>) -> Option<CfgView> {
    match ns {
        Ns::Cfg => if name == "opt"@ {
            Some(CfgView::Str(opt_text(c.opt)))
        } else if name == "target"@ {
            Some(CfgView::Str(c.target@))
        } else {
            None
        },
        Ns::Host => if name == "os"@ {
            Some(CfgView::Str(c.host_os@))
        } else if name == "arch"@ {
            Some(CfgView::Str(c.host_arch@))
        } else {
            None
        },
        Ns::Target => if name == "os"@ {
            Some(CfgView::Str(triple_os_text(c.target@)))
        } else if name == "arch"@ {
            Some(CfgView::Str(triple_arch_text(c.target@)))
        } else if name == "env"@ {
            Some(CfgView::Str(triple_env_text(c.target@)))
        } else {
            None
        },
        Ns::Tc => match c.tool_command(name) {
            Some(t) => Some(CfgView::Str(t)),
            None => None,
        },
        Ns::Feature => Some(
            CfgView::Bool(c.features.view().contains(c.package_name() + "/"@ + name)),
        ),
        Ns::Pkg => match pkg_constant_text(c, name) {
            Some(v) => Some(CfgView::Str(v)),
            None => None,
        },
    }
}

// --- the target triple ------------------------------------------------------

/// The values `target.os` may take. `other` receives any triple without a
/// mapping, so the domain is finite and `match` can be checked exhaustive.
pub const TARGET_OSES: [&'static str; 5] = ["linux", "macos", "windows", "none", "other"];

/// The values `target.arch` may take.
pub const TARGET_ARCHES: [&'static str; 6] = ["x86_64", "x86", "aarch64", "arm", "riscv64", "other"];

/// The values `target.env` may take: the C runtime built against.
pub const TARGET_ENVS: [&'static str; 6] = ["gnu", "musl", "msvc", "apple", "none", "other"];

pub open spec fn target_oses() -> Seq<Seq<char>> {
    seq!["linux"@, "macos"@, "windows"@, "none"@, "other"@]
}

pub open spec fn target_arches() -> Seq<Seq<char>> {
    seq!["x86_64"@, "x86"@, "aarch64"@, "arm"@, "riscv64"@, "other"@]
}

pub open spec fn target_envs() -> Seq<Seq<char>> {
    seq!["gnu"@, "musl"@, "msvc"@, "apple"@, "none"@, "other"@]
}

/// The OS a component of a triple names, if any.
pub open spec fn os_of_part(p: Seq<char>) -> Option<Seq<char>> {
    if has_prefix(p, "linux"@) {
        Some("linux"@)
    } else if has_prefix(p, "windows"@) {
        Some("windows"@)
    } else if has_prefix(p, "darwin"@) || p == "macos"@ || has_prefix(p, "ios"@) {
        Some("macos"@)
    } else {
        None
    }
}

/// The OS named by the first component from `i` on that names one.
pub open spec fn first_os(parts: Seq<Seq<char>>, i: int) -> Option<Seq<char>>
    decreases parts.len() - i,
{
    if i < 0 || i >= parts.len() {
        None
    } else {
        match os_of_part(parts[i]) {
            Some(os) => Some(os),
            None => first_os(parts, i + 1),
        }
    }
}

/// Whether a component marks a bare-metal triple.
pub open spec fn is_bare_part(p: Seq<char>) -> bool {
    p == "none"@ || has_prefix(p, "eabi"@) || p == "elf"@
}

/// The target OS a triple names, in the vocabulary of `host.os`.
pub open spec fn triple_os_text(triple: Seq<char>) -> Seq<char> {
    let parts = split_on(triple, '-');
    match first_os(parts, 0) {
        Some(os) => os,
        None => if exists|i: int| 0 <= i < parts.len() && is_bare_part(#[trigger] parts[i]) {
            "none"@
        } else {
            "other"@
        },
    }
}

/// Reads the target OS off a triple. The components are scanned: a triple
/// has three or four of them, so positions do not decide.
pub fn triple_os(triple: &str) -> (r: &'static str)
    ensures
        r@ == triple_os_text(triple@),
        target_oses().contains(r@),
{
    let t = chars_of(triple);
    let parts = split_chars(t.as_slice(), '-');
    let ghost ps = split_on(triple@, '-');
    let mut i: usize = 0;
    while i < parts.len()
        invariant
            ps == split_on(triple@, '-'),
            parts@.len() == ps.len(),
            forall|j: int| 0 <= j < parts@.len() ==> #[trigger] parts@[j]@ == ps[j],
            i <= parts@.len(),
            first_os(ps, 0) == first_os(ps, i as int),
        decreases parts.len() - i,
    {
        let p = parts[i].as_slice();
        assert(p@ == ps[i as int]);
        if starts_with(p, "linux") {
            assert(target_oses()[0] == "linux"@);
            assert(os_of_part(ps[i as int]) == Some("linux"@));
            assert(first_os(ps, i as int) == Some("linux"@));
            return "linux";
        }
        if starts_with(p, "windows") {
            assert(target_oses()[2] == "windows"@);
            assert(os_of_part(ps[i as int]) == Some("windows"@));
            assert(first_os(ps, i as int) == Some("windows"@));
            return "windows";
        }
        if starts_with(p, "darwin") || chars_is(p, "macos") || starts_with(p, "ios") {
            assert(target_oses()[1] == "macos"@);
            assert(os_of_part(ps[i as int]) == Some("macos"@));
            assert(first_os(ps, i as int) == Some("macos"@));
            return "macos";
        }
        i += 1;
    }
    let mut j: usize = 0;
    while j < parts.len()
        invariant
            ps == split_on(triple@, '-'),
            parts@.len() == ps.len(),
            forall|k: int| 0 <= k < parts@.len() ==> #[trigger] parts@[k]@ == ps[k],
            first_os(ps, 0) is None,
            j <= parts@.len(),
            forall|k: int| 0 <= k < j ==> !is_bare_part(#[trigger] ps[k]),
        decreases parts.len() - j,
    {
        let p = parts[j].as_slice();
        if chars_is(p, "none") || starts_with(p, "eabi") || chars_is(p, "elf") {
            assert(is_bare_part(ps[j as int]));
            assert(target_oses()[3] == "none"@);
            assert(exists|k: int| 0 <= k < ps.len() && is_bare_part(#[trigger] ps[k]));
            return "none";
        }
        j += 1;
    }
    assert(target_oses()[4] == "other"@);
    "other"
}

/// The architecture a triple names: its first component, with the spellings
/// of one family folded together.
pub open spec fn triple_arch_text(triple: Seq<char>) -> Seq<char> {
    let head = split_on(triple, '-')[0];
    if head == "x86_64"@ || head == "amd64"@ {
        "x86_64"@
    } else if head == "aarch64"@ || head == "arm64"@ {
        "aarch64"@
    } else if head == "i386"@ || head == "i486"@ || head == "i586"@ || head == "i686"@ || head
        == "x86"@ {
        "x86"@
    } else if has_prefix(head, "riscv64"@) {
        "riscv64"@
    } else if has_prefix(head, "arm"@) || has_prefix(head, "thumb"@) {
        "arm"@
    } else {
        "other"@
    }
}

/// Reads the target architecture off a triple.
pub fn triple_arch(triple: &str) -> (r: &'static str)
    ensures
        r@ == triple_arch_text(triple@),
        target_arches().contains(r@),
{
    let t = chars_of(triple);
    let parts = split_chars(t.as_slice(), '-');
    proof {
        lemma_split_on_nonempty(triple@, '-');
    }
    let head = parts[0].as_slice();
    if chars_is(head, "x86_64") || chars_is(head, "amd64") {
        assert(target_arches()[0] == "x86_64"@);
        "x86_64"
    } else if chars_is(head, "aarch64") || chars_is(head, "arm64") {
        assert(target_arches()[2] == "aarch64"@);
        "aarch64"
    } else if chars_is(head, "i386") || chars_is(head, "i486") || chars_is(head, "i586")
        || chars_is(head, "i686") || chars_is(head, "x86") {
        assert(target_arches()[1] == "x86"@);
        "x86"
    } else if starts_with(head, "riscv64") {
        assert(target_arches()[4] == "riscv64"@);
        "riscv64"
    } else if starts_with(head, "arm") || starts_with(head, "thumb") {
        assert(target_arches()[3] == "arm"@);
        "arm"
    } else {
        assert(target_arches()[5] == "other"@);
        "other"
    }
}

/// The C runtime a component names, if any. `gnueabihf` and `musleabi`
/// carry the deciding word at their head.
pub open spec fn env_of_part(p: Seq<char>) -> Option<Seq<char>> {
    if has_prefix(p, "gnu"@) {
        Some("gnu"@)
    } else if has_prefix(p, "musl"@) {
        Some("musl"@)
    } else if p == "msvc"@ {
        Some("msvc"@)
    } else {
        None
    }
}

pub open spec fn first_env(parts: Seq<Seq<char>>, i: int) -> Option<Seq<char>>
    decreases parts.len() - i,
{
    if i < 0 || i >= parts.len() {
        None
    } else {
        match env_of_part(parts[i]) {
            Some(e) => Some(e),
            None => first_env(parts, i + 1),
        }
    }
}

/// The C runtime a triple builds against. A triple that names none takes
/// it from its OS: Apple platforms have no choice of libc.
pub open spec fn triple_env_text(triple: Seq<char>) -> Seq<char> {
    match first_env(split_on(triple, '-'), 0) {
        Some(e) => e,
        None => {
            let os = triple_os_text(triple);
            if os == "macos"@ {
                "apple"@
            } else if os == "none"@ {
                "none"@
            } else {
                "other"@
            }
        },
    }
}

/// Reads the target's C runtime off a triple.
pub fn triple_env(triple: &str) -> (r: &'static str)
    ensures
        r@ == triple_env_text(triple@),
        target_envs().contains(r@),
{
    let t = chars_of(triple);
    let parts = split_chars(t.as_slice(), '-');
    let ghost ps = split_on(triple@, '-');
    let mut i: usize = 0;
    while i < parts.len()
        invariant
            ps == split_on(triple@, '-'),
            parts@.len() == ps.len(),
            forall|j: int| 0 <= j < parts@.len() ==> #[trigger] parts@[j]@ == ps[j],
            i <= parts@.len(),
            first_env(ps, 0) == first_env(ps, i as int),
        decreases parts.len() - i,
    {
        let p = parts[i].as_slice();
        assert(p@ == ps[i as int]);
        if starts_with(p, "gnu") {
            assert(target_envs()[0] == "gnu"@);
            assert(env_of_part(ps[i as int]) == Some("gnu"@));
            assert(first_env(ps, i as int) == Some("gnu"@));
            return "gnu";
        }
        if starts_with(p, "musl") {
            assert(target_envs()[1] == "musl"@);
            assert(env_of_part(ps[i as int]) == Some("musl"@));
            assert(first_env(ps, i as int) == Some("musl"@));
            return "musl";
        }
        if chars_is(p, "msvc") {
            assert(target_envs()[2] == "msvc"@);
            assert(env_of_part(ps[i as int]) == Some("msvc"@));
            assert(first_env(ps, i as int) == Some("msvc"@));
            return "msvc";
        }
        i += 1;
    }
    let os = triple_os(triple);
    if str_eq(os, "macos") {
        assert(target_envs()[3] == "apple"@);
        "apple"
    } else if str_eq(os, "none") {
        assert(target_envs()[4] == "none"@);
        "none"
    } else {
        assert(target_envs()[5] == "other"@);
        "other"
    }
}

// --- the vocabulary ---------------------------------------------------------

/// The values a key may take; `match` exhaustiveness is checked against it.
#[derive(Clone, Debug)]
pub enum Domain {
    /// A closed finite set: a `match` can be exhaustive without `_`
    Finite(Vec<&'static str>),
    /// True or false
    Bool,
    /// Free text: a `match` needs a `_` arm
    Open,
}

/// What a domain means in contracts.
pub enum DomainView {
    Finite(Seq<Seq<char>>),
    Bool,
    Open,
}

pub open spec fn domain_view(d: Domain) -> DomainView {
    match d {
        Domain::Finite(v) => DomainView::Finite(v@.map_values(|s: &'static str| s@)),
        Domain::Bool => DomainView::Bool,
        Domain::Open => DomainView::Open,
    }
}

/// One key of the vocabulary: namespace, name (`*` for any), domain, and
/// what the key means.
pub struct VocabEntry {
    pub ns: Seq<char>,
    pub name: Seq<char>,
    pub domain: DomainView,
    pub doc: Seq<char>,
}

pub open spec fn entry(ns: &str, name: &str, domain: DomainView, doc: &str) -> VocabEntry {
    VocabEntry { ns: ns@, name: name@, domain, doc: doc@ }
}

/// The vocabulary of configuration keys.
pub open spec fn vocabulary_spec() -> Seq<VocabEntry> {
    seq![
        entry("cfg", "opt", DomainView::Finite(seq!["debug"@, "release"@]), "optimization configuration"),
        entry("cfg", "target", DomainView::Open, "target triple"),
        entry("host", "os", DomainView::Finite(seq!["linux"@, "macos"@, "windows"@]), "operating system of the build host"),
        entry("host", "arch", DomainView::Finite(seq!["x86_64"@, "aarch64"@, "riscv64"@]), "architecture of the build host"),
        entry("target", "os", DomainView::Finite(target_oses()), "operating system being built for, read off the target triple"),
        entry("target", "arch", DomainView::Finite(target_arches()), "architecture being built for, read off the target triple"),
        entry("target", "env", DomainView::Finite(target_envs()), "C runtime being built against, read off the target triple"),
        entry("feature", "*", DomainView::Bool, "feature flag declared in [features] of dowel.toml"),
        entry("tc", "c", DomainView::Open, "identifier of the selected C toolchain"),
        entry("tc", "cxx", DomainView::Open, "identifier of the selected C++ toolchain"),
        entry("tc", "ar", DomainView::Open, "identifier of the selected archiver"),
        entry("tc", "link", DomainView::Open, "identifier of the selected linker; empty when the compiler driver links"),
        entry("tc", "objcopy", DomainView::Open, "identifier of the selected object copier"),
        entry("tc", "size", DomainView::Open, "identifier of the selected size reporter"),
        entry("tc", "nm", DomainView::Open, "identifier of the selected symbol lister"),
        entry("tc", "objdump", DomainView::Open, "identifier of the selected object dumper"),
        entry("tc", "readelf", DomainView::Open, "identifier of the selected ELF reader"),
        entry("tc", "debug", DomainView::Open, "identifier of the selected debugger"),
    ]
}

pub open spec fn entry_view(e: (&'static str, &'static str, Domain, &'static str)) -> VocabEntry {
    VocabEntry { ns: e.0@, name: e.1@, domain: domain_view(e.2), doc: e.3@ }
}

/// The number of keys in the vocabulary.
pub const VOCABULARY_LEN: usize = 18;

/// The `i`-th key of the vocabulary.
pub fn vocabulary_entry(i: usize) -> (e: (&'static str, &'static str, Domain, &'static str))
    requires
        i < VOCABULARY_LEN,
    ensures
        entry_view(e) == vocabulary_spec()[i as int],
{
    let e = match i {
        0 => ("cfg", "opt", Domain::Finite(vec!["debug", "release"]), "optimization configuration"),
        1 => ("cfg", "target", Domain::Open, "target triple"),
        2 => ("host", "os", Domain::Finite(vec!["linux", "macos", "windows"]), "operating system of the build host"),
        3 => ("host", "arch", Domain::Finite(vec!["x86_64", "aarch64", "riscv64"]), "architecture of the build host"),
        4 => ("target", "os", Domain::Finite(vec!["linux", "macos", "windows", "none", "other"]), "operating system being built for, read off the target triple"),
        5 => ("target", "arch", Domain::Finite(vec!["x86_64", "x86", "aarch64", "arm", "riscv64", "other"]), "architecture being built for, read off the target triple"),
        6 => ("target", "env", Domain::Finite(vec!["gnu", "musl", "msvc", "apple", "none", "other"]), "C runtime being built against, read off the target triple"),
        7 => ("feature", "*", Domain::Bool, "feature flag declared in [features] of dowel.toml"),
        8 => ("tc", "c", Domain::Open, "identifier of the selected C toolchain"),
        9 => ("tc", "cxx", Domain::Open, "identifier of the selected C++ toolchain"),
        10 => ("tc", "ar", Domain::Open, "identifier of the selected archiver"),
        11 => ("tc", "link", Domain::Open, "identifier of the selected linker; empty when the compiler driver links"),
        12 => ("tc", "objcopy", Domain::Open, "identifier of the selected object copier"),
        13 => ("tc", "size", Domain::Open, "identifier of the selected size reporter"),
        14 => ("tc", "nm", Domain::Open, "identifier of the selected symbol lister"),
        15 => ("tc", "objdump", Domain::Open, "identifier of the selected object dumper"),
        16 => ("tc", "readelf", Domain::Open, "identifier of the selected ELF reader"),
        _ => ("tc", "debug", Domain::Open, "identifier of the selected debugger"),
    };
    proof {
        match &e.2 {
            Domain::Finite(v) => {
                let m = v@.map_values(|s: &'static str| s@);
                if i == 0 {
                    assert(m =~= seq!["debug"@, "release"@]);
                } else if i == 2 {
                    assert(m =~= seq!["linux"@, "macos"@, "windows"@]);
                } else if i == 3 {
                    assert(m =~= seq!["x86_64"@, "aarch64"@, "riscv64"@]);
                } else if i == 4 {
                    assert(m =~= target_oses());
                } else if i == 5 {
                    assert(m =~= target_arches());
                } else if i == 6 {
                    assert(m =~= target_envs());
                }
            },
            _ => {},
        }
    }
    e
}

/// The whole vocabulary, in order.
pub fn vocabulary() -> (v: Vec<(&'static str, &'static str, Domain, &'static str)>)
    ensures
        v@.len() == vocabulary_spec().len(),
        forall|i: int| 0 <= i < v@.len() ==> entry_view(#[trigger] v@[i]) == vocabulary_spec()[i],
{
    let mut v = Vec::new();
    let mut i: usize = 0;
    while i < VOCABULARY_LEN
        invariant
            i <= VOCABULARY_LEN,
            v@.len() == i,
            forall|j: int| 0 <= j < i ==> entry_view(#[trigger] v@[j]) == vocabulary_spec()[j],
        decreases VOCABULARY_LEN - i,
    {
        v.push(vocabulary_entry(i));
        i += 1;
    }
    v
}

/// The domain of the first vocabulary entry from `i` on that holds the key.
pub open spec fn find_domain(ns: Seq<char>, name: Seq<char>, i: int) -> Option<DomainView>
    decreases vocabulary_spec().len() - i,
{
    if i < 0 || i >= vocabulary_spec().len() {
        None
    } else {
        let e = vocabulary_spec()[i];
        if e.ns == ns && (e.name == name || e.name == "*"@) {
            Some(e.domain)
        } else {
            find_domain(ns, name, i + 1)
        }
    }
}

/// The domain of a key; `None` for a key outside the vocabulary, which
/// type checking then rejects.
pub fn domain_of(key: &CfgKey) -> (r: Option<Domain>)
    ensures
        match r {
            Some(d) => find_domain(ns_text(key.ns), key.name@, 0) == Some(domain_view(d)),
            None => find_domain(ns_text(key.ns), key.name@, 0) is None,
        },
{
    let ns = key.ns.name();
    let mut i: usize = 0;
    while i < VOCABULARY_LEN
        invariant
            i <= VOCABULARY_LEN,
            ns@ == ns_text(key.ns),
            find_domain(ns_text(key.ns), key.name@, 0) == find_domain(ns_text(key.ns), key.name@, i as int),
        decreases VOCABULARY_LEN - i,
    {
        let e = vocabulary_entry(i);
        if str_eq(e.0, ns) && (str_eq(e.1, key.name.as_str()) || str_eq(e.1, "*")) {
            return Some(e.2);
        }
        i += 1;
    }
    None
}

/// The known keys of a namespace from entry `i` on, as `<ns>.<name>`.
pub open spec fn known_keys_from(ns: Seq<char>, i: int) -> Seq<Seq<char>>
    decreases vocabulary_spec().len() - i,
{
    if i < 0 || i >= vocabulary_spec().len() {
        Seq::empty()
    } else {
        let e = vocabulary_spec()[i];
        let rest = known_keys_from(ns, i + 1);
        if e.ns == ns {
            seq![e.ns + "."@ + e.name] + rest
        } else {
            rest
        }
    }
}

/// The known keys of a namespace, for suggesting a candidate in a diagnostic.
pub fn known_keys(ns: Ns) -> (r: Vec<String>)
    ensures
        r@.map_values(|s: String| s@) == known_keys_from(ns_text(ns), 0),
{
    let name = ns.name();
    let mut i: usize = VOCABULARY_LEN;
    let mut out: Vec<String> = Vec::new();
    while i > 0
        invariant
            i <= VOCABULARY_LEN,
            name@ == ns_text(ns),
            out@.map_values(|s: String| s@) == known_keys_from(ns_text(ns), i as int),
        decreases i,
    {
        i -= 1;
        let e = vocabulary_entry(i);
        if str_eq(e.0, name) {
            let mut k = owned(e.0);
            push_str(&mut k, ".");
            push_str(&mut k, e.1);
            let ghost before = out@.map_values(|s: String| s@);
            out.insert(0, k);
            assert(out@.map_values(|s: String| s@) =~= seq![k@] + before);
        }
    }
    out
}

/// The names of the package constants, with what each holds.
pub open spec fn pkg_constants() -> Seq<(Seq<char>, Seq<char>)> {
    seq![
        ("name"@, "the package name from [package] of dowel.toml"@),
        ("version"@, "the package version"@),
    ]
}

/// Whether `name` is a package constant. The constants are a table of their
/// own, apart from the vocabulary: they are not an axis of the
/// configuration.
pub fn is_pkg_constant(name: &str) -> (r: bool)
    ensures
        r == exists|i: int| 0 <= i < pkg_constants().len() && #[trigger] pkg_constants()[i].0 == name@,
{
    let r = str_eq(name, "name") || str_eq(name, "version");
    proof {
        if r {
            if name@ == "name"@ {
                assert(pkg_constants()[0].0 == name@);
            } else {
                assert(pkg_constants()[1].0 == name@);
            }
        } else {
            assert forall|i: int| 0 <= i < pkg_constants().len() implies pkg_constants()[i].0 != name@ by {
                if i == 0 {
                } else {
                }
            }
        }
    }
    r
}

/// Every tool of the table has a `tc.<name>` key in the vocabulary, and
/// every `tc` key names a tool of the table: the `tc` keys are the entries
/// after the first eight, one per tool and in the table's order.
#[verifier::rlimit(80)]
pub proof fn law_tools_and_vocabulary_agree()
    ensures
        vocabulary_spec().len() == 8 + tool_table().len(),
        forall|i: int|
            0 <= i < tool_table().len() ==> (#[trigger] vocabulary_spec()[i + 8]).ns == "tc"@
                && vocabulary_spec()[i + 8].name == tool_table()[i].0,
        forall|j: int| 0 <= j < 8 ==> (#[trigger] vocabulary_spec()[j]).ns != "tc"@,
{
    lemma_tc_entries();
    lemma_other_entries();
}

#[verifier::rlimit(80)]
proof fn lemma_tc_entries()
    ensures
        vocabulary_spec().len() == 8 + tool_table().len(),
        forall|i: int|
            0 <= i < tool_table().len() ==> (#[trigger] vocabulary_spec()[i + 8]).ns == "tc"@
                && vocabulary_spec()[i + 8].name == tool_table()[i].0,
{
    let v = vocabulary_spec();
    let t = tool_table();
    assert forall|i: int| 0 <= i < t.len() implies (#[trigger] v[i + 8]).ns == "tc"@ && v[i + 8].name
        == t[i].0 by {
        if i == 0 {
        } else if i == 1 {
        } else if i == 2 {
        } else if i == 3 {
        } else if i == 4 {
        } else if i == 5 {
        } else if i == 6 {
        } else if i == 7 {
        } else if i == 8 {
        } else {
        }
    }
}

#[verifier::rlimit(80)]
proof fn lemma_other_entries()
    ensures
        forall|j: int| 0 <= j < 8 ==> (#[trigger] vocabulary_spec()[j]).ns != "tc"@,
{
    reveal_strlit("tc");
    reveal_strlit("cfg");
    reveal_strlit("host");
    reveal_strlit("target");
    reveal_strlit("feature");
    let v = vocabulary_spec();
    assert("tc"@.len() == 2);
    assert forall|j: int| 0 <= j < 8 implies (#[trigger] v[j]).ns != "tc"@ by {
        if j == 0 || j == 1 {
            assert(v[j].ns == "cfg"@);
            assert("cfg"@.len() == 3);
        } else if j == 2 || j == 3 {
            assert(v[j].ns == "host"@);
            assert("host"@.len() == 4);
        } else if j == 4 || j == 5 || j == 6 {
            assert(v[j].ns == "target"@);
            assert("target"@.len() == 6);
        } else {
            assert(v[j].ns == "feature"@);
            assert("feature"@.len() == 7);
        }
    }
}

/// Every value `target.os`, `target.arch` and `target.env` read is inside
/// the finite domain the vocabulary declares for it.
pub proof fn law_derived_values_are_inside_their_domains(triple: Seq<char>)
    ensures
        target_oses().contains(triple_os_text(triple)),
        target_arches().contains(triple_arch_text(triple)),
        target_envs().contains(triple_env_text(triple)),
        vocabulary_spec()[4].domain == DomainView::Finite(target_oses()),
        vocabulary_spec()[5].domain == DomainView::Finite(target_arches()),
        vocabulary_spec()[6].domain == DomainView::Finite(target_envs()),
{
    let parts = split_on(triple, '-');
    match first_os(parts, 0) {
        Some(os) => {
            lemma_first_os_in_domain(parts, 0);
        },
        None => {
            assert(target_oses()[3] == "none"@);
            assert(target_oses()[4] == "other"@);
        },
    }
    let head = parts[0];
    assert(target_arches()[0] == "x86_64"@);
    assert(target_arches()[1] == "x86"@);
    assert(target_arches()[2] == "aarch64"@);
    assert(target_arches()[3] == "arm"@);
    assert(target_arches()[4] == "riscv64"@);
    assert(target_arches()[5] == "other"@);
    lemma_first_env_in_domain(parts, 0);
    assert(target_envs()[3] == "apple"@);
    assert(target_envs()[4] == "none"@);
    assert(target_envs()[5] == "other"@);
}

proof fn lemma_first_os_in_domain(parts: Seq<Seq<char>>, i: int)
    ensures
        first_os(parts, i) matches Some(os) ==> target_oses().contains(os),
    decreases parts.len() - i,
{
    assert(target_oses()[0] == "linux"@);
    assert(target_oses()[1] == "macos"@);
    assert(target_oses()[2] == "windows"@);
    if 0 <= i < parts.len() {
        lemma_first_os_in_domain(parts, i + 1);
    }
}

proof fn lemma_first_env_in_domain(parts: Seq<Seq<char>>, i: int)
    ensures
        first_env(parts, i) matches Some(e) ==> target_envs().contains(e),
    decreases parts.len() - i,
{
    assert(target_envs()[0] == "gnu"@);
    assert(target_envs()[1] == "musl"@);
    assert(target_envs()[2] == "msvc"@);
    if 0 <= i < parts.len() {
        lemma_first_env_in_domain(parts, i + 1);
    }
}

/// The identifier of a configuration never holds `/`: one configuration
/// is one directory.
pub proof fn law_config_id_is_one_path_component(target: Seq<char>, opt: Opt, features: Seq<Seq<char>>)
    ensures
        !config_id_text(target, opt, features).contains('/'),
{
    reveal_strlit("-");
    reveal_strlit("+");
    reveal_strlit("debug");
    reveal_strlit("release");
    lemma_path_safe_has_no_slash(target);
    lemma_plus_joined_has_no_slash(features);
    let head = path_safe_text(target) + "-"@ + opt_text(opt);
    assert(!head.contains('/')) by {
        let a = path_safe_text(target);
        assert forall|i: int| 0 <= i < head.len() implies head[i] != '/' by {
            if i < a.len() {
                assert(head[i] == a[i]);
            }
        }
    }
    if features.len() > 0 {
        let whole = head + "-"@ + plus_joined(features);
        let j = plus_joined(features);
        assert forall|i: int| 0 <= i < whole.len() implies whole[i] != '/' by {
            if i < head.len() {
                assert(whole[i] == head[i]);
            } else if i > head.len() {
                assert(whole[i] == j[i - head.len() - 1]);
            }
        }
    }
}

proof fn lemma_plus_joined_has_no_slash(names: Seq<Seq<char>>)
    ensures
        !plus_joined(names).contains('/'),
    decreases names.len(),
{
    reveal_strlit("+");
    if names.len() == 1 {
        lemma_path_safe_has_no_slash(names[0]);
    } else if names.len() > 1 {
        lemma_plus_joined_has_no_slash(names.drop_last());
        lemma_path_safe_has_no_slash(names.last());
        let a = plus_joined(names.drop_last());
        let b = path_safe_text(names.last());
        let whole = a + "+"@ + b;
        assert forall|i: int| 0 <= i < whole.len() implies whole[i] != '/' by {
            if i < a.len() {
                assert(whole[i] == a[i]);
            } else if i > a.len() {
                assert(whole[i] == b[i - a.len() - 1]);
            }
        }
    }
}

/// Splitting at `-` text that ends in `-` and a piece without one adds
/// that piece.
proof fn lemma_split_dash(x: Seq<char>, b: Seq<char>)
    requires
        forall|j: int| 0 <= j < b.len() ==> b[j] != '-',
    ensures
        split_on(x + seq!['-'] + b, '-') == split_on(x, '-').push(b),
{
    crate::text::lemma_split_on_push_sep(x, '-');
    crate::text::lemma_split_on_extend(x.push('-'), b, '-');
    assert(x + seq!['-'] + b =~= x.push('-') + b);
    let p = split_on(x.push('-'), '-');
    assert(p.update(p.len() - 1, p.last() + b) =~= split_on(x, '-').push(b)) by {
        assert(p.last() + b =~= b);
    }
}

proof fn lemma_split_alone(x: Seq<char>)
    requires
        forall|j: int| 0 <= j < x.len() ==> x[j] != '-',
    ensures
        split_on(x, '-') == seq![x],
{
    crate::text::lemma_split_on_extend(Seq::empty(), x, '-');
    assert(Seq::<char>::empty() + x =~= x);
    assert(seq![Seq::<char>::empty()].update(0, Seq::<char>::empty() + x) =~= seq![x]);
}

/// The triple assumed for a host reads back as that host's: its OS, where
/// it is one of those a triple names, and the architecture that its first
/// component reads as. The architecture is one component, and names no OS
/// itself, as those that Rust reports do not.
pub proof fn law_default_triple_reads_back(os: Seq<char>, arch: Seq<char>)
    requires
        os == "linux"@ || os == "macos"@ || os == "windows"@,
        forall|j: int| 0 <= j < arch.len() ==> arch[j] != '-',
        os_of_part(arch) is None,
    ensures
        triple_os_text(default_triple_text(os, arch)) == os,
        triple_arch_text(default_triple_text(os, arch)) == triple_arch_text(arch),
{
    reveal_strlit("linux");
    reveal_strlit("macos");
    reveal_strlit("windows");
    reveal_strlit("darwin");
    reveal_strlit("ios");
    reveal_strlit("unknown");
    reveal_strlit("gnu");
    reveal_strlit("apple");
    reveal_strlit("pc");
    reveal_strlit("msvc");
    reveal_strlit("-unknown-linux-gnu");
    reveal_strlit("-apple-darwin");
    reveal_strlit("-pc-windows-msvc");
    lemma_split_alone(arch);
    let t = default_triple_text(os, arch);
    if os == "linux"@ {
        let a1 = arch + seq!['-'] + "unknown"@;
        let a2 = a1 + seq!['-'] + "linux"@;
        assert(t =~= a2 + seq!['-'] + "gnu"@);
        lemma_split_dash(arch, "unknown"@);
        lemma_split_dash(a1, "linux"@);
        lemma_split_dash(a2, "gnu"@);
        let ps = split_on(t, '-');
        assert(ps =~= seq![arch, "unknown"@, "linux"@, "gnu"@]);
        assert("unknown"@[0] != "linux"@[0] && "unknown"@[0] != "windows"@[0] && "unknown"@[0] != "darwin"@[0]
            && "unknown"@[0] != "macos"@[0] && "unknown"@[0] != "ios"@[0]);
        assert(!has_prefix("unknown"@, "linux"@) && !has_prefix("unknown"@, "windows"@) && !has_prefix("unknown"@, "darwin"@)
            && !has_prefix("unknown"@, "ios"@)) by {
            assert("unknown"@.take(5)[0] != "linux"@[0]);
            assert("unknown"@.take(7)[0] != "windows"@[0]);
            assert("unknown"@.take(6)[0] != "darwin"@[0]);
            assert("unknown"@.take(3)[0] != "ios"@[0]);
        }
        assert(os_of_part("unknown"@) is None);
        assert(has_prefix("linux"@, "linux"@)) by {
            assert("linux"@.take(5) =~= "linux"@);
        }
        assert(first_os(ps, 2) == Some("linux"@));
        assert(first_os(ps, 1) == Some("linux"@));
        assert(first_os(ps, 0) == Some("linux"@));
    } else if os == "macos"@ {
        let a1 = arch + seq!['-'] + "apple"@;
        assert(t =~= a1 + seq!['-'] + "darwin"@);
        lemma_split_dash(arch, "apple"@);
        lemma_split_dash(a1, "darwin"@);
        let ps = split_on(t, '-');
        assert(ps =~= seq![arch, "apple"@, "darwin"@]);
        assert(!has_prefix("apple"@, "linux"@) && !has_prefix("apple"@, "windows"@) && !has_prefix("apple"@, "darwin"@)
            && !has_prefix("apple"@, "ios"@) && "apple"@ != "macos"@) by {
            assert("apple"@.take(5)[0] != "linux"@[0]);
            assert("apple"@[0] != "macos"@[0]);
            assert("apple"@.take(3)[0] != "ios"@[0]);
        }
        assert(os_of_part("apple"@) is None);
        assert(!has_prefix("darwin"@, "linux"@) && !has_prefix("darwin"@, "windows"@)) by {
            assert("darwin"@.take(5)[0] != "linux"@[0]);
        }
        assert(has_prefix("darwin"@, "darwin"@)) by {
            assert("darwin"@.take(6) =~= "darwin"@);
        }
        assert(first_os(ps, 2) == Some("macos"@));
        assert(first_os(ps, 1) == Some("macos"@));
        assert(first_os(ps, 0) == Some("macos"@));
    } else {
        let a1 = arch + seq!['-'] + "pc"@;
        let a2 = a1 + seq!['-'] + "windows"@;
        assert(t =~= a2 + seq!['-'] + "msvc"@);
        lemma_split_dash(arch, "pc"@);
        lemma_split_dash(a1, "windows"@);
        lemma_split_dash(a2, "msvc"@);
        let ps = split_on(t, '-');
        assert(ps =~= seq![arch, "pc"@, "windows"@, "msvc"@]);
        assert(!has_prefix("pc"@, "linux"@) && !has_prefix("pc"@, "windows"@) && !has_prefix("pc"@, "darwin"@)
            && !has_prefix("pc"@, "ios"@) && "pc"@ != "macos"@) by {
            assert("pc"@[0] != "ios"@[0]);
            assert("pc"@[0] != "macos"@[0]);
        }
        assert(os_of_part("pc"@) is None);
        assert(!has_prefix("windows"@, "linux"@)) by {
            assert("windows"@.take(5)[0] != "linux"@[0]);
        }
        assert(has_prefix("windows"@, "windows"@)) by {
            assert("windows"@.take(7) =~= "windows"@);
        }
        assert(first_os(ps, 2) == Some("windows"@));
        assert(first_os(ps, 1) == Some("windows"@));
        assert(first_os(ps, 0) == Some("windows"@));
    }
}

/// The name the configuration gives the OS a process was built for, from
/// the name Rust gives it: one of those a triple names, or `unknown`.
pub open spec fn host_os_text(os: Seq<char>) -> Seq<char> {
    if os == "linux"@ || os == "macos"@ || os == "windows"@ {
        os
    } else {
        "unknown"@
    }
}

/// The name the configuration gives the architecture a process was built
/// for, from the name Rust gives it.
pub open spec fn host_arch_text(arch: Seq<char>) -> Seq<char> {
    if arch == "x86_64"@ || arch == "aarch64"@ || arch == "riscv64"@ {
        arch
    } else {
        "unknown"@
    }
}

/// The configuration's name for the OS Rust names `os`.
pub fn host_os_name(os: &str) -> (r: &'static str)
    ensures
        r@ == host_os_text(os@),
{
    if str_eq(os, "linux") {
        "linux"
    } else if str_eq(os, "macos") {
        "macos"
    } else if str_eq(os, "windows") {
        "windows"
    } else {
        "unknown"
    }
}

/// The configuration's name for the architecture Rust names `arch`.
pub fn host_arch_name(arch: &str) -> (r: &'static str)
    ensures
        r@ == host_arch_text(arch@),
{
    if str_eq(arch, "x86_64") {
        "x86_64"
    } else if str_eq(arch, "aarch64") {
        "aarch64"
    } else if str_eq(arch, "riscv64") {
        "riscv64"
    } else {
        "unknown"
    }
}

/// The triple assumed for a host reads back as the host's OS, where that
/// is known, and as its architecture, where that is known.
pub proof fn law_host_triple_reads_back(os: Seq<char>, arch: Seq<char>)
    ensures
        host_os_text(os) != "unknown"@ ==> triple_os_text(default_triple_text(host_os_text(os), host_arch_text(arch)))
            == host_os_text(os),
        host_os_text(os) != "unknown"@ && host_arch_text(arch) != "unknown"@ ==> triple_arch_text(
            default_triple_text(host_os_text(os), host_arch_text(arch)),
        ) == host_arch_text(arch),
{
    reveal_strlit("linux");
    reveal_strlit("macos");
    reveal_strlit("windows");
    reveal_strlit("darwin");
    reveal_strlit("ios");
    reveal_strlit("unknown");
    reveal_strlit("x86_64");
    reveal_strlit("aarch64");
    reveal_strlit("riscv64");
    reveal_strlit("amd64");
    reveal_strlit("arm64");
    reveal_strlit("i386");
    reveal_strlit("i486");
    reveal_strlit("i586");
    reveal_strlit("i686");
    reveal_strlit("x86");
    reveal_strlit("arm");
    reveal_strlit("thumb");
    reveal_strlit("other");
    let o = host_os_text(os);
    let a = host_arch_text(arch);
    if o != "unknown"@ {
        assert(forall|j: int| 0 <= j < a.len() ==> a[j] != '-');
        assert(!has_prefix(a, "linux"@) && !has_prefix(a, "windows"@) && !has_prefix(a, "darwin"@)
            && !has_prefix(a, "ios"@) && a != "macos"@) by {
            assert(a.take(5)[0] != "linux"@[0] || a.len() < 5);
            assert(a.len() < 7 || a.take(7)[0] != "windows"@[0]);
            assert(a.len() < 6 || a.take(6)[0] != "darwin"@[0]);
            assert(a.len() < 3 || a.take(3)[0] != "ios"@[0]);
            assert(a[0] != "macos"@[0]);
        }
        assert(os_of_part(a) is None);
        law_default_triple_reads_back(o, a);
        lemma_split_alone(a);
        if a != "unknown"@ {
            let head = split_on(a, '-')[0];
            assert(head == a);
            if a == "x86_64"@ {
            } else if a == "aarch64"@ {
                assert(a != "x86_64"@ && a != "amd64"@) by {
                    assert(a[0] != "x86_64"@[0] && a[1] != "amd64"@[1]);
                }
            } else {
                assert(a == "riscv64"@);
                assert(a[0] != "x86_64"@[0] && a[0] != "amd64"@[0] && a[0] != "aarch64"@[0] && a[0] != "arm64"@[0]
                    && a[0] != "i386"@[0] && a[0] != "i486"@[0] && a[0] != "i586"@[0] && a[0] != "i686"@[0]
                    && a[0] != "x86"@[0]);
                assert(has_prefix(a, "riscv64"@)) by {
                    assert(a.take(7) =~= a);
                }
            }
        }
    }
}

/// How the first component of a triple reads as an architecture: each
/// family's spellings read as its one name; `arm64` and `aarch64` are the
/// 64-bit ARM family, never 32-bit `arm`.
pub proof fn law_arch_spellings(triple: Seq<char>)
    ensures
        ({
            let head = split_on(triple, '-')[0];
            &&& (head == "aarch64"@ || head == "arm64"@) ==> triple_arch_text(triple) == "aarch64"@
            &&& (head == "x86_64"@ || head == "amd64"@) ==> triple_arch_text(triple) == "x86_64"@
            &&& (head == "i386"@ || head == "i486"@ || head == "i586"@ || head == "i686"@ || head == "x86"@)
                ==> triple_arch_text(triple) == "x86"@
            &&& has_prefix(head, "riscv64"@) ==> triple_arch_text(triple) == "riscv64"@
            &&& (head == "arm"@ || head == "armv7"@ || head == "thumbv7em"@) ==> triple_arch_text(triple) == "arm"@
            &&& triple_arch_text(triple) != "arm"@ || !(head == "arm64"@ || head == "aarch64"@)
            &&& (has_prefix(head, "arm"@) || has_prefix(head, "thumb"@)) && head != "arm64"@ ==> triple_arch_text(
                triple,
            ) == "arm"@
            &&& !(head == "x86_64"@ || head == "amd64"@ || head == "aarch64"@ || head == "arm64"@ || head
                == "i386"@ || head == "i486"@ || head == "i586"@ || head == "i686"@ || head == "x86"@
                || has_prefix(head, "riscv64"@) || has_prefix(head, "arm"@) || has_prefix(head, "thumb"@))
                ==> triple_arch_text(triple) == "other"@
        }),
{
    reveal_strlit("aarch64");
    reveal_strlit("arm64");
    reveal_strlit("x86_64");
    reveal_strlit("amd64");
    reveal_strlit("i386");
    reveal_strlit("i486");
    reveal_strlit("i586");
    reveal_strlit("i686");
    reveal_strlit("x86");
    reveal_strlit("riscv64");
    reveal_strlit("arm");
    reveal_strlit("armv7");
    reveal_strlit("thumb");
    reveal_strlit("thumbv7em");
    let head = split_on(triple, '-')[0];
    assert("arm64"@[1] != "amd64"@[1]);
    assert("aarch64"@[1] != "amd64"@[1]);
    assert("aarch64"@[0] != "x86_64"@[0]);
    assert("arm64"@[0] != "x86_64"@[0]);
    if head == "arm"@ || head == "armv7"@ || head == "thumbv7em"@ {
        assert(head[0] != "x86_64"@[0] && head[0] != "i386"@[0] && head[0] != "x86"@[0]);
        assert(head != "amd64"@) by {
            assert(head.len() != 5 || head[1] != "amd64"@[1]);
        }
        assert(head != "aarch64"@ && head != "arm64"@) by {
            assert(head.len() != 7 || head[1] != "aarch64"@[1]);
            assert(head.len() != 5 || head[3] != "arm64"@[3]);
        }
        assert(!has_prefix(head, "riscv64"@)) by {
            assert(head.len() < 7 || head.take(7)[0] != "riscv64"@[0]);
        }
        if head == "thumbv7em"@ {
            assert(has_prefix(head, "thumb"@)) by {
                assert(head.take(5) =~= "thumb"@);
            }
        } else {
            assert(has_prefix(head, "arm"@)) by {
                assert(head.take(3) =~= "arm"@);
            }
        }
    }
    if has_prefix(head, "riscv64"@) {
        assert(head[0] == 'r') by {
            assert(head.take(7)[0] == "riscv64"@[0]);
        }
        assert(head[0] != "x86_64"@[0] && head[0] != "amd64"@[0] && head[0] != "aarch64"@[0]
            && head[0] != "arm64"@[0] && head[0] != "i386"@[0] && head[0] != "i486"@[0] && head[0] != "i586"@[0]
            && head[0] != "i686"@[0] && head[0] != "x86"@[0]);
    }
    if (has_prefix(head, "arm"@) || has_prefix(head, "thumb"@)) && head != "arm64"@ {
        assert(head[0] == 'a' && head[1] == 'r' || head[0] == 't' && head[1] == 'h') by {
            if has_prefix(head, "arm"@) {
                assert(head.take(3)[0] == "arm"@[0] && head.take(3)[1] == "arm"@[1]);
            } else {
                assert(head.take(5)[0] == "thumb"@[0] && head.take(5)[1] == "thumb"@[1]);
            }
        }
        assert(head != "x86_64"@ && head != "amd64"@ && head != "aarch64"@ && head != "i386"@
            && head != "i486"@ && head != "i586"@ && head != "i686"@ && head != "x86"@) by {
            assert(head.len() != 6 || head[0] != "x86_64"@[0]);
            assert(head.len() != 5 || head[1] != "amd64"@[1]);
            assert(head.len() != 7 || head[1] != "aarch64"@[1]);
            assert(head.len() != 4 || head[0] != "i386"@[0]);
            assert(head.len() != 4 || head[0] != "i486"@[0]);
            assert(head.len() != 4 || head[0] != "i586"@[0]);
            assert(head.len() != 4 || head[0] != "i686"@[0]);
            assert(head.len() != 3 || head[0] != "x86"@[0]);
        }
        assert(!has_prefix(head, "riscv64"@)) by {
            assert(head.len() < 7 || head.take(7)[0] != "riscv64"@[0]);
        }
    }
    if head == "i386"@ || head == "i486"@ || head == "i586"@ || head == "i686"@ || head == "x86"@ {
        assert(head != "x86_64"@ && head != "amd64"@ && head != "aarch64"@ && head != "arm64"@) by {
            assert(head.len() != 6 || head[0] != "x86_64"@[0] || head[3] != "x86_64"@[3]);
            assert(head.len() != 5 || head[0] != "amd64"@[0]);
        }
    }
}

/// Whether `part` occurs in `whole` as a run of consecutive characters.
pub open spec fn occurs_in(part: Seq<char>, whole: Seq<char>) -> bool {
    exists|k: int| 0 <= k && k + part.len() <= whole.len() && #[trigger] whole.subrange(k, k + part.len()) == part
}

proof fn lemma_occurs_at(part: Seq<char>, whole: Seq<char>, k: int)
    requires
        0 <= k,
        k + part.len() <= whole.len(),
        whole.subrange(k, k + part.len()) == part,
    ensures
        occurs_in(part, whole),
{
}

proof fn lemma_occurs_extend(part: Seq<char>, whole: Seq<char>, more: Seq<char>)
    requires
        occurs_in(part, whole),
    ensures
        occurs_in(part, whole + more),
{
    let k = choose|k: int| 0 <= k && k + part.len() <= whole.len() && #[trigger] whole.subrange(k, k + part.len()) == part;
    assert((whole + more).subrange(k, k + part.len()) =~= whole.subrange(k, k + part.len()));
}

proof fn lemma_plus_joined_names_all(names: Seq<Seq<char>>)
    ensures
        forall|i: int| 0 <= i < names.len() ==> occurs_in(path_safe_text(#[trigger] names[i]), plus_joined(names)),
    decreases names.len(),
{
    if names.len() == 1 {
        let p = path_safe_text(names[0]);
        assert(plus_joined(names).subrange(0, p.len() as int) =~= p);
        lemma_occurs_at(p, plus_joined(names), 0);
    } else if names.len() > 1 {
        let d = names.drop_last();
        lemma_plus_joined_names_all(d);
        let front = plus_joined(d) + "+"@;
        let p = path_safe_text(names.last());
        assert forall|i: int| 0 <= i < names.len() implies occurs_in(path_safe_text(#[trigger] names[i]), plus_joined(names)) by {
            if i < names.len() - 1 {
                assert(names[i] == d[i]);
                lemma_occurs_extend(path_safe_text(d[i]), plus_joined(d), "+"@ + p);
                assert(plus_joined(d) + ("+"@ + p) =~= plus_joined(names));
            } else {
                assert(plus_joined(names) =~= front + p);
                assert((front + p).subrange(front.len() as int, (front.len() + p.len()) as int) =~= p);
                lemma_occurs_at(p, plus_joined(names), front.len() as int);
            }
        }
    }
}

proof fn lemma_occurs_after(part: Seq<char>, front: Seq<char>, back: Seq<char>)
    requires
        occurs_in(part, back),
    ensures
        occurs_in(part, front + back),
{
    let k = choose|k: int| 0 <= k && k + part.len() <= back.len() && #[trigger] back.subrange(k, k + part.len()) == part;
    assert((front + back).subrange(front.len() + k, front.len() + k + part.len()) =~= back.subrange(k, k + part.len()));
    lemma_occurs_at(part, front + back, front.len() + k);
}

/// A configuration's identifier starts with its target and level, and
/// names every enabled feature: configurations whose feature sets differ
/// in a feature's path-safe name never share an identifier, or a build
/// directory.
pub proof fn law_id_names_every_feature(target: Seq<char>, opt: Opt, features: Seq<Seq<char>>)
    ensures
        config_id_text(target, opt, features).take((path_safe_text(target) + "-"@ + opt_text(opt)).len() as int)
            == path_safe_text(target) + "-"@ + opt_text(opt),
        forall|i: int| 0 <= i < features.len() ==> occurs_in(path_safe_text(#[trigger] features[i]), config_id_text(target, opt, features)),
{
    let head = path_safe_text(target) + "-"@ + opt_text(opt);
    let id = config_id_text(target, opt, features);
    if features.len() == 0 {
        assert(id.take(head.len() as int) =~= head);
    } else {
        let front = head + "-"@;
        let pj = plus_joined(features);
        assert(id == front + pj);
        assert((front + pj).take(head.len() as int) =~= head);
        lemma_plus_joined_names_all(features);
        assert forall|i: int| 0 <= i < features.len() implies occurs_in(path_safe_text(#[trigger] features[i]), id) by {
            lemma_occurs_after(path_safe_text(features[i]), front, pj);
        }
    }
}


/// Text without `sep` is one piece when split on `sep`.
proof fn lemma_split_whole(y: Seq<char>, sep: char)
    requires
        !y.contains(sep),
    ensures
        split_on(y, sep) == seq![y],
    decreases y.len(),
{
    if y.len() > 0 {
        assert(y.drop_last().contains(sep) ==> y.contains(sep));
        lemma_split_whole(y.drop_last(), sep);
        assert(y.last() != sep);
        assert(y.drop_last().push(y.last()) =~= y);
        assert(seq![y.drop_last()].update(0, y) =~= seq![y]);
    } else {
        assert(y =~= Seq::<char>::empty());
    }
}

/// Splitting `x`, a separator, then text without it, gives the pieces of
/// `x` and then that text.
proof fn lemma_split_after(x: Seq<char>, sep: char, y: Seq<char>)
    requires
        !y.contains(sep),
    ensures
        split_on(x + seq![sep] + y, sep) == split_on(x, sep).push(y),
    decreases y.len(),
{
    let s = x + seq![sep] + y;
    if y.len() == 0 {
        assert(s.drop_last() =~= x);
        assert(s.last() == sep);
        assert(y =~= Seq::<char>::empty());
    } else {
        let y0 = y.drop_last();
        assert(y0.contains(sep) ==> y.contains(sep));
        lemma_split_after(x, sep, y0);
        assert(s.drop_last() =~= x + seq![sep] + y0);
        assert(s.last() == y.last());
        assert(y.last() != sep);
        lemma_split_on_nonempty(x, sep);
        assert(y0.push(y.last()) =~= y);
        assert(split_on(x, sep).push(y0).update(split_on(x, sep).len() as int, y) =~= split_on(
            x,
            sep,
        ).push(y));
    }
}

/// A name without `+` keeps none in its path-safe form.
proof fn lemma_path_safe_no_plus(s: Seq<char>)
    requires
        !s.contains('+'),
    ensures
        !path_safe_text(s).contains('+'),
    decreases s.len(),
{
    if s.len() > 0 {
        assert(s.drop_last().contains('+') ==> s.contains('+'));
        lemma_path_safe_no_plus(s.drop_last());
        let t = path_safe_text(s.drop_last());
        if path_safe_char(s.last()) {
            assert(s.last() != '+');
            assert forall|i: int| 0 <= i < t.push(s.last()).len() implies t.push(s.last())[i] != '+' by {
                if i < t.len() {
                    assert(t.push(s.last())[i] == t[i]);
                }
            }
        } else {
            reveal_strlit("--");
            assert forall|i: int| 0 <= i < (t + "--"@).len() implies (t + "--"@)[i] != '+' by {
                if i < t.len() {
                    assert((t + "--"@)[i] == t[i]);
                }
            }
        }
    }
}

/// The `+`-joined names split back into the names' path-safe forms.
proof fn lemma_plus_joined_splits(names: Seq<Seq<char>>)
    requires
        names.len() > 0,
        forall|i: int| 0 <= i < names.len() ==> !(#[trigger] names[i]).contains('+'),
    ensures
        split_on(plus_joined(names), '+') == names.map_values(|n: Seq<char>| path_safe_text(n)),
    decreases names.len(),
{
    lemma_path_safe_no_plus(names.last());
    if names.len() == 1 {
        lemma_split_whole(path_safe_text(names[0]), '+');
        assert(names.map_values(|n: Seq<char>| path_safe_text(n)) =~= seq![path_safe_text(names[0])]);
    } else {
        let d = names.drop_last();
        assert forall|i: int| 0 <= i < d.len() implies !(#[trigger] d[i]).contains('+') by {
            assert(d[i] == names[i]);
        }
        lemma_plus_joined_splits(d);
        reveal_strlit("+");
        assert("+"@ =~= seq!['+']);
        lemma_split_after(plus_joined(d), '+', path_safe_text(names.last()));
        assert(names.map_values(|n: Seq<char>| path_safe_text(n)) =~= d.map_values(
            |n: Seq<char>| path_safe_text(n),
        ).push(path_safe_text(names.last())));
    }
}

/// A configuration's identifier lists its features after the target and
/// level: split on `+`, what follows `<target>-<level>-` gives back each
/// enabled feature's path-safe name, in order. So where no feature name
/// holds a `+`, configurations whose features differ in their path-safe
/// names get different identifiers.
pub proof fn law_id_lists_the_features(target: Seq<char>, opt: Opt, features: Seq<Seq<char>>)
    requires
        features.len() > 0,
        forall|i: int| 0 <= i < features.len() ==> !(#[trigger] features[i]).contains('+'),
    ensures
        ({
            let front = path_safe_text(target) + "-"@ + opt_text(opt) + "-"@;
            let id = config_id_text(target, opt, features);
            &&& id.take(front.len() as int) == front
            &&& split_on(id.skip(front.len() as int), '+') == features.map_values(
                |n: Seq<char>| path_safe_text(n),
            )
        }),
{
    let front = path_safe_text(target) + "-"@ + opt_text(opt) + "-"@;
    let id = config_id_text(target, opt, features);
    assert(id =~= front + plus_joined(features));
    assert(id.take(front.len() as int) =~= front);
    assert(id.skip(front.len() as int) =~= plus_joined(features));
    lemma_plus_joined_splits(features);
}

} // verus!
