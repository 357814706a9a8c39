//! A verified compiler for a hotkey-configuration language: a
//! line-oriented grammar binding key chords (modifier set plus key) to
//! shell commands, with brace shorthands expanded by cartesian product,
//! mode blocks, file imports with cycle tolerance, and a deterministic
//! override and ignore resolution.

use vstd::prelude::*;

pub mod bindings;
pub mod definition;
pub mod errors;
pub mod grammar;
pub mod imports;
pub mod keymap;
pub mod product;
pub mod range;
pub mod resolve;
pub mod text;
pub mod token;

verus! {

pub use crate::text::unescape;
pub use crate::bindings::Binding;
pub use crate::bindings::BindingBuilder;
pub use crate::bindings::ModeInstruction;
pub use crate::definition::Definition;
pub use crate::definition::DefinitionUncompiled;
pub use crate::errors::ConfigReadError;
pub use crate::errors::GrammarError;
pub use crate::errors::LineColLocation;
pub use crate::errors::ParseError;
pub use crate::grammar::SwhkdGrammar;
pub use crate::imports::FileMap;

/// A named mode: its attributes and the bindings and unbinds that hold
/// inside it.
#[derive(Debug)]
pub struct Mode {
    pub name: String,
    pub oneoff: bool,
    pub swallow: bool,
    pub bindings: Vec<crate::bindings::Binding>,
    pub unbinds: Vec<crate::definition::Definition>,
}

impl Default for Mode {
    fn default() -> (m: Mode)
        ensures
            m.name@ == Seq::<char>::empty(),
            !m.oneoff,
            !m.swallow,
            m.bindings@ == Seq::<crate::bindings::Binding>::empty(),
            m.unbinds@ == Seq::<crate::definition::Definition>::empty(),
    {
        Mode {
            name: String::new(),
            oneoff: false,
            swallow: false,
            bindings: Vec::new(),
            unbinds: Vec::new(),
        }
    }
}

/// Ghost view of a mode.
pub struct ModeView {
    pub name: Seq<char>,
    pub oneoff: bool,
    pub swallow: bool,
    pub bindings: Seq<crate::bindings::BindingView>,
    pub unbinds: Seq<crate::definition::DefView>,
}

/// The view of one mode.
pub open spec fn mode_view(m: &Mode) -> ModeView {
    ModeView {
        name: m.name@,
        oneoff: m.oneoff,
        swallow: m.swallow,
        bindings: crate::bindings::bindings_view(m.bindings@),
        unbinds: crate::definition::defs_view(m.unbinds@),
    }
}

/// The views of a list of modes.
pub open spec fn modes_view(v: Seq<Mode>) -> Seq<ModeView> {
    v.map_values(|m: Mode| mode_view(&m))
}

/// A copy of a string list, equal under `paths_view`.
pub fn copy_strings(v: &Vec<String>) -> (r: Vec<String>)
    ensures
        crate::imports::paths_view(r@) == crate::imports::paths_view(v@),
{
    let mut r: Vec<String> = Vec::new();
    let mut i: usize = 0;
    while i < v.len()
        invariant
            i <= v@.len(),
            r@.len() == i,
            forall|j: int| 0 <= j < i ==> #[trigger] r@[j]@ == v@[j]@,
        decreases v@.len() - i,
    {
        r.push(v[i].clone());
        i = i + 1;
    }
    proof {
        assert(crate::imports::paths_view(r@) =~= crate::imports::paths_view(v@));
    }
    r
}

/// A parsed configuration: the bindings in document order, the unbound
/// definitions, the set of import paths, and the modes.
#[derive(Debug)]
pub struct SwhkdParser {
    pub bindings: Vec<crate::bindings::Binding>,
    pub unbinds: Vec<crate::definition::Definition>,
    pub imports: Vec<String>,
    pub modes: Vec<Mode>,
}

/// Input to the parser: the source text itself, or the path of the
/// file holding it.
pub enum ParserInput<'a> {
    Raw(&'a str),
    Path(&'a str),
}

/// What one file's text parses to, under the machine limit on its
/// length.
pub open spec fn spec_parse_checked(text: Seq<char>) -> Result<
    grammar::ConfigView,
    grammar::ErrView,
> {
    if text.len() >= usize::MAX {
        Err(grammar::ErrView::AtPos { line: 1, col: 1 })
    } else {
        grammar::spec_parse_text(text)
    }
}

/// Parse one file's text, guarding the machine limit on its length.
pub(crate) fn parse_checked(contents: &String) -> (r: Result<SwhkdParser, errors::ParseError>)
    ensures
        r matches Ok(pf) ==> crate::grammar::omission_free(pf.bindings@) && (forall|i: int|
            0 <= i < pf.modes@.len() ==> crate::grammar::omission_free(
                (#[trigger] pf.modes@[i]).bindings@,
            )),
        match r {
            Ok(pf) => spec_parse_checked(contents@) == Ok::<_, grammar::ErrView>(
                grammar::config_view(&pf),
            ),
            Err(e) => spec_parse_checked(contents@) matches Err(ev) && grammar::err_matches(
                e,
                ev,
            ),
        },
{
    let n = contents.as_str().unicode_len();
    if n == usize::MAX {
        return Err(
            errors::ParseError::Grammar(
                errors::GrammarError {
                    line_col: errors::LineColLocation::Pos((1, 1)),
                    message: String::from_str("configuration text too large"),
                    path: String::new(),
                },
            ),
        );
    }
    grammar::SwhkdGrammar::parse(contents.as_str())
}

/// What resolving a parsed root against the file set yields: the
/// import walk from the root's import list, then the override and
/// ignore policy over the merged document-order stream (root first,
/// then the walked files), with the walked path list as the imports.
pub open spec fn spec_from_root(
    entries: Seq<(String, String)>,
    rv: grammar::ConfigView,
) -> Result<grammar::ConfigView, crate::imports::WalkErr> {
    match crate::imports::walk_src(entries, rv.imports, Seq::empty()) {
        Err(we) => Err(we),
        Ok(w) => Ok(
            grammar::ConfigView {
                bindings: crate::resolve::resolve_spec(
                    rv.bindings + w.bindings,
                    rv.unbinds + w.unbinds,
                ),
                unbinds: rv.unbinds + w.unbinds,
                imports: w.seen,
                modes: rv.modes + w.modes,
            },
        ),
    }
}

/// What a whole parse-and-resolve run yields for a given input and
/// file set: the root text parsed (raw text is attributed to
/// `<anonymous>`, a path to its file), then resolved against the set.
pub open spec fn spec_from_sources(
    input: ParserInput<'_>,
    entries: Seq<(String, String)>,
) -> Result<grammar::ConfigView, crate::imports::WalkErr> {
    match input {
        ParserInput::Raw(s) => match spec_parse_checked(s@) {
            Err(ev) => Err(crate::imports::WalkErr { path: "<anonymous>"@, err: ev }),
            Ok(rv) => spec_from_root(entries, rv),
        },
        ParserInput::Path(p) => match crate::imports::file_lookup(entries, p@) {
            None => Err(
                crate::imports::WalkErr {
                    path: p@,
                    err: grammar::ErrView::NoFile { path: p@ },
                },
            ),
            Some(text) => match spec_parse_checked(text) {
                Err(ev) => Err(crate::imports::WalkErr { path: p@, err: ev }),
                Ok(rv) => spec_from_root(entries, rv),
            },
        },
    }
}

impl SwhkdParser {
    /// Parse a configuration and resolve its imports against an
    /// in-memory file set. The result's bindings carry no omission
    /// sentinel, no two of them share a definition, and none of them
    /// has a definition among the unbinds.
    pub fn from_sources(input: ParserInput<'_>, files: &crate::imports::FileMap) -> (r: Result<
        SwhkdParser,
        errors::ParseError,
    >)
        requires
            input matches ParserInput::Raw(s) ==> s@.len() < usize::MAX,
        ensures
            r matches Ok(cfg) ==> crate::grammar::omission_free(cfg.bindings@) && (forall|
                i: int,
                j: int,
            |
                #![trigger cfg.bindings@[i], cfg.bindings@[j]]
                0 <= i < j < cfg.bindings@.len() ==> crate::bindings::binding_view(
                    cfg.bindings@[i],
                ).defv() != crate::bindings::binding_view(cfg.bindings@[j]).defv()) && (forall|
                i: int,
                u: int,
            |
                #![trigger cfg.bindings@[i], cfg.unbinds@[u]]
                0 <= i < cfg.bindings@.len() && 0 <= u < cfg.unbinds@.len()
                    ==> crate::bindings::binding_view(cfg.bindings@[i]).defv()
                    != crate::definition::def_view(&cfg.unbinds@[u])) && crate::imports::paths_sorted(
                crate::imports::paths_view(cfg.imports@),
            ) && (forall|i: int, j: int|
                #![trigger cfg.imports@[i], cfg.imports@[j]]
                0 <= i < j < cfg.imports@.len() ==> cfg.imports@[i]@ != cfg.imports@[j]@),
            r matches Ok(cfg) ==> forall|i: int|
                0 <= i < cfg.modes@.len() ==> crate::grammar::omission_free(
                    (#[trigger] cfg.modes@[i]).bindings@,
                ),
            match r {
                Ok(cfg) => spec_from_sources(input, files.entries@) == Ok::<
                    _,
                    crate::imports::WalkErr,
                >(grammar::config_view(&cfg)),
                Err(e) => spec_from_sources(input, files.entries@) matches Err(we)
                    && grammar::err_matches(e, we.err) && (e matches errors::ParseError::Grammar(
                    g,
                ) ==> g.path@ == we.path),
            },
    {
        let root = match input {
            ParserInput::Raw(s) => {
                match grammar::SwhkdGrammar::parse(s) {
                    Ok(pf) => {
                        proof {
                            assert(spec_from_sources(input, files.entries@) == spec_from_root(
                                files.entries@,
                                grammar::config_view(&pf),
                            ));
                        }
                        pf
                    },
                    Err(e) => {
                        let e2 = e.with_path("<anonymous>");
                        proof {
                            let ev = spec_parse_checked(s@)->Err_0;
                            assert(grammar::err_matches(e2, ev));
                        }
                        return Err(e2);
                    },
                }
            },
            ParserInput::Path(p) => {
                let contents = match files.lookup(p) {
                    Some(c) => c,
                    None => {
                        return Err(
                            errors::ParseError::ConfigRead(
                                errors::ConfigReadError::ReadingConfig(String::from_str(p)),
                            ),
                        );
                    },
                };
                match parse_checked(contents) {
                    Ok(pf) => {
                        proof {
                            assert(spec_from_sources(input, files.entries@) == spec_from_root(
                                files.entries@,
                                grammar::config_view(&pf),
                            ));
                        }
                        pf
                    },
                    Err(e) => {
                        let e2 = e.with_path(p);
                        proof {
                            let ev = spec_parse_checked(contents@)->Err_0;
                            assert(grammar::err_matches(e2, ev));
                        }
                        return Err(e2);
                    },
                }
            },
        };
        let ghost rv = grammar::config_view(&root);
        let work = copy_strings(&root.imports);
        let (mut wb, mut wu, mut wm, seen) = match crate::imports::walk_files(files, work) {
            Ok(x) => x,
            Err(e) => {
                return Err(e);
            },
        };
        let ghost wview = crate::imports::WalkOut {
            bindings: crate::bindings::bindings_view(wb@),
            unbinds: crate::definition::defs_view(wu@),
            modes: crate::modes_view(wm@),
            seen: crate::imports::paths_view(seen@),
        };
        let mut bindings = root.bindings;
        let ghost pre_b = bindings@;
        bindings.append(&mut wb);
        proof {
            assert(crate::bindings::bindings_view(bindings@) =~= rv.bindings + wview.bindings);
            assert forall|i: int| 0 <= i < bindings@.len() implies crate::grammar::no_omission(
                (#[trigger] bindings@[i]).definition.modifiers@,
            ) by {
                if i < pre_b.len() {
                    assert(bindings@[i] == pre_b[i]);
                }
            }
        }
        let mut unbinds = root.unbinds;
        unbinds.append(&mut wu);
        proof {
            assert(crate::definition::defs_view(unbinds@) =~= rv.unbinds + wview.unbinds);
        }
        let ghost pre_modes = root.modes@;
        let ghost wm0 = wm@;
        let mut modes = root.modes;
        modes.append(&mut wm);
        proof {
            assert(crate::modes_view(modes@) =~= rv.modes + wview.modes);
            assert forall|i: int| 0 <= i < modes@.len() implies crate::grammar::omission_free(
                (#[trigger] modes@[i]).bindings@,
            ) by {
                if i < pre_modes.len() {
                    assert(modes@[i] == pre_modes[i]);
                } else {
                    assert(modes@[i] == wm0[i - pre_modes.len()]);
                }
            }
        }
        let ghost bv = crate::bindings::bindings_view(bindings@);
        let ghost uv = crate::definition::defs_view(unbinds@);
        proof {
            assert forall|k: int| 0 <= k < bv.len() implies crate::grammar::no_omission(
                (#[trigger] bv[k]).modifiers,
            ) by {
                assert(bv[k] == crate::bindings::binding_view(bindings@[k]));
            }
        }
        let resolved = crate::resolve::resolve(bindings, &unbinds);
        proof {
            crate::resolve::lemma_resolve_unique(bv, uv);
            crate::resolve::lemma_resolve_respects_unbinds(bv, uv);
            crate::resolve::lemma_resolve_from_input(bv, uv);
            let rv = crate::resolve::resolve_spec(bv, uv);
            assert forall|i: int| 0 <= i < resolved@.len() implies crate::grammar::no_omission(
                (#[trigger] resolved@[i]).definition.modifiers@,
            ) by {
                assert(crate::bindings::bindings_view(resolved@)[i] == rv[i]);
                let k = choose|k: int|
                    0 <= k < bv.len() && (#[trigger] rv[i]).modifiers == bv[k].modifiers;
                assert(crate::grammar::no_omission(bv[k].modifiers));
            }
            assert forall|i: int, j: int|
                #![trigger resolved@[i], resolved@[j]]
                0 <= i < j < resolved@.len() implies crate::bindings::binding_view(
                resolved@[i],
            ).defv() != crate::bindings::binding_view(resolved@[j]).defv() by {
                assert(crate::bindings::bindings_view(resolved@)[i] == rv[i]);
                assert(crate::bindings::bindings_view(resolved@)[j] == rv[j]);
            }
            assert forall|i: int, u: int|
                #![trigger resolved@[i], unbinds@[u]]
                0 <= i < resolved@.len() && 0 <= u < unbinds@.len()
                implies crate::bindings::binding_view(resolved@[i]).defv()
                != crate::definition::def_view(&unbinds@[u]) by {
                assert(crate::bindings::bindings_view(resolved@)[i] == rv[i]);
                assert(!crate::resolve::def_in(uv, rv[i].defv()));
                assert(uv[u] == crate::definition::def_view(&unbinds@[u]));
            }
            crate::imports::lemma_sorted_paths_unique(crate::imports::paths_view(seen@));
            assert forall|i: int, j: int|
                #![trigger seen@[i], seen@[j]]
                0 <= i < j < seen@.len() implies seen@[i]@ != seen@[j]@ by {
                assert(crate::imports::paths_view(seen@)[i] == seen@[i]@);
                assert(crate::imports::paths_view(seen@)[j] == seen@[j]@);
            }
        }
        let out = SwhkdParser { bindings: resolved, unbinds, imports: seen, modes };
        proof {
            assert(crate::imports::walk_src(files.entries@, rv.imports, Seq::empty())
                == Ok::<_, crate::imports::WalkErr>(wview));
            let target = spec_from_root(files.entries@, rv)->Ok_0;
            assert(grammar::config_view(&out).bindings == target.bindings);
            assert(grammar::config_view(&out).unbinds == target.unbinds);
            assert(grammar::config_view(&out).imports == target.imports);
            assert(grammar::config_view(&out).modes == target.modes);
            assert(grammar::config_view(&out) == target);
        }
        Ok(out)
    }

    /// Parse a configuration with no files to import from: every
    /// `include` of a raw text fails as unreadable. The result carries
    /// every guarantee of `from_sources`, against the empty file set:
    /// it equals `spec_from_sources` of the input, and its bindings are
    /// omission-free with pairwise distinct definitions, none of them
    /// unbound, under a sorted, duplicate-free import list.
    pub fn from(input: ParserInput<'_>) -> (r: Result<SwhkdParser, errors::ParseError>)
        requires
            input matches ParserInput::Raw(s) ==> s@.len() < usize::MAX,
        ensures
            r matches Ok(cfg) ==> crate::grammar::omission_free(cfg.bindings@) && (forall|
                i: int,
                j: int,
            |
                #![trigger cfg.bindings@[i], cfg.bindings@[j]]
                0 <= i < j < cfg.bindings@.len() ==> crate::bindings::binding_view(
                    cfg.bindings@[i],
                ).defv() != crate::bindings::binding_view(cfg.bindings@[j]).defv()) && (forall|
                i: int,
                u: int,
            |
                #![trigger cfg.bindings@[i], cfg.unbinds@[u]]
                0 <= i < cfg.bindings@.len() && 0 <= u < cfg.unbinds@.len()
                    ==> crate::bindings::binding_view(cfg.bindings@[i]).defv()
                    != crate::definition::def_view(&cfg.unbinds@[u])) && crate::imports::paths_sorted(
                crate::imports::paths_view(cfg.imports@),
            ) && (forall|i: int, j: int|
                #![trigger cfg.imports@[i], cfg.imports@[j]]
                0 <= i < j < cfg.imports@.len() ==> cfg.imports@[i]@ != cfg.imports@[j]@),
            r matches Ok(cfg) ==> forall|i: int|
                0 <= i < cfg.modes@.len() ==> crate::grammar::omission_free(
                    (#[trigger] cfg.modes@[i]).bindings@,
                ),
            match r {
                Ok(cfg) => spec_from_sources(input, Seq::empty()) == Ok::<
                    _,
                    crate::imports::WalkErr,
                >(grammar::config_view(&cfg)),
                Err(e) => spec_from_sources(input, Seq::empty()) matches Err(we)
                    && grammar::err_matches(e, we.err) && (e matches errors::ParseError::Grammar(
                    g,
                ) ==> g.path@ == we.path),
            },
    {
        let files = crate::imports::FileMap::new();
        proof {
            assert(files.entries@ =~= Seq::<(String, String)>::empty());
        }
        Self::from_sources(input, &files)
    }
}

/// Whether a file of this size exceeds the cap, given in MiB.
pub fn file_too_large(size: u64, cap_mib: u64) -> (r: bool)
    ensures
        r == (size > (cap_mib << 20)),
{
    size > (cap_mib << 20)
}

/// The numeric value of a run of decimal digits, or nothing when the
/// text is empty, holds a non-digit, or overflows.
pub open spec fn spec_parse_u64(s: Seq<char>, acc: int) -> Option<u64>
    decreases s.len(),
{
    if s.len() == 0 {
        Some(acc as u64)
    } else if 48 <= s[0] as u32 && s[0] as u32 <= 57 {
        let v = acc * 10 + (s[0] as int - 48);
        if v > u64::MAX {
            None
        } else {
            spec_parse_u64(s.skip(1), v)
        }
    } else {
        None
    }
}

/// Parse a decimal size-cap override; anything unusable falls back to
/// the default of 50 MiB.
#[verifier::loop_isolation(false)]
pub fn filesize_cap_mib(overriding: Option<&String>) -> (r: u64)
    ensures
        match overriding {
            None => r == 50,
            Some(t) => {
                if t@.len() > 0 && spec_parse_u64(t@, 0) is Some {
                    r == spec_parse_u64(t@, 0)->Some_0
                } else {
                    r == 50
                }
            },
        },
{
    let t = match overriding {
        Some(t) => t,
        None => {
            return 50;
        },
    };
    let s = t.as_str();
    let n = s.unicode_len();
    if n == 0 {
        return 50;
    }
    let mut acc: u64 = 0;
    let mut i: usize = 0;
    proof {
        assert(t@.skip(0) =~= t@);
    }
    while i < n
        invariant
            i <= n,
            n == t@.len(),
            s@ == t@,
            spec_parse_u64(t@, 0) == spec_parse_u64(t@.skip(i as int), acc as int),
        decreases n - i,
    {
        let c = s.get_char(i);
        let u = c as u32;
        proof {
            assert(t@.skip(i as int)[0] == t@[i as int]);
            assert(t@.skip(i as int).skip(1) =~= t@.skip(i + 1));
        }
        if !(48 <= u && u <= 57) {
            return 50;
        }
        let d = (u - 48) as u64;
        if acc > (u64::MAX - d) / 10 {
            proof {
                assert(acc * 10 + d > u64::MAX) by (nonlinear_arith)
                    requires
                        acc > (u64::MAX - d) / 10 && d <= 9,
                ;
            }
            return 50;
        }
        proof {
            assert(acc * 10 + d <= u64::MAX) by (nonlinear_arith)
                requires
                    acc <= (u64::MAX - d) / 10 && d <= 9,
            ;
        }
        acc = acc * 10 + d;
        i = i + 1;
    }
    proof {
        assert(t@.skip(n as int) =~= Seq::<char>::empty());
    }
    acc
}

} // verus!
