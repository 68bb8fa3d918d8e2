//! Reading the command line: the store flag, flags with values, and positional
//! arguments.
use vstd::prelude::*;
use crate::text::{chars_of, string_of, same_chars, append, starts_with, has_prefix};
use crate::lex::{parse_unsigned, parse_decimal};

verus! {

/// The texts of a list of strings.
pub open spec fn texts(v: Seq<String>) -> Seq<Seq<char>> {
    Seq::new(v.len(), |i: int| v[i]@)
}

pub open spec fn store_flag() -> Seq<char> {
    seq!['-', '-', 's', 't', 'o', 'r', 'e']
}

/// Splitting `args` from position `i` on, with `rest` kept and `store` chosen
/// so far: `--store` takes the next argument as the store, the last one
/// winning; `None` when `--store` ends the list.
pub open spec fn split_from(args: Seq<Seq<char>>, i: int, rest: Seq<Seq<char>>, store: Option<Seq<char>>)
    -> Option<(Seq<Seq<char>>, Option<Seq<char>>)>
    decreases args.len() - i,
{
    if i < 0 || i >= args.len() {
        Some((rest, store))
    } else if args[i] == store_flag() {
        if i + 1 >= args.len() {
            None
        } else {
            split_from(args, i + 2, rest, Some(args[i + 1]))
        }
    } else {
        split_from(args, i + 1, rest.push(args[i]), store)
    }
}

/// Whether `s` is the text `w`.
fn is_word(s: &String, w: &Vec<char>) -> (r: bool)
    ensures
        r == (s@ == w@),
{
    let c = chars_of(s.as_str());
    same_chars(&c, w)
}

/// The arguments without `--store <dir>`, and the directory it named.
pub fn split_store_flag(args: Vec<String>) -> (r: Result<(Vec<String>, Option<String>), String>)
    ensures
        match r {
            Ok((rest, store)) => split_from(texts(args@), 0, Seq::empty(), None) == Some(
                (
                    texts(rest@),
                    match store {
                        Some(s) => Some(s@),
                        None => None,
                    },
                ),
            ),
            Err(_) => split_from(texts(args@), 0, Seq::empty(), None) is None,
        },
{
    let flag = vec!['-', '-', 's', 't', 'o', 'r', 'e'];
    assert(flag@ =~= store_flag());
    let ghost a = texts(args@);
    let mut rest: Vec<String> = Vec::new();
    let mut store: Option<String> = None;
    let mut i: usize = 0;
    assert(texts(rest@) =~= Seq::<Seq<char>>::empty());
    while i < args.len()
        invariant
            a == texts(args@),
            flag@ == store_flag(),
            i <= args.len(),
            split_from(a, 0, Seq::empty(), None) == split_from(
                a,
                i as int,
                texts(rest@),
                match store {
                    Some(s) => Some(s@),
                    None => None,
                },
            ),
        decreases args.len() - i,
    {
        if is_word(&args[i], &flag) {
            if i + 1 >= args.len() {
                return Err(string_of(&chars_of("--store needs a directory")));
            }
            store = Some(args[i + 1].clone());
            i = i + 2;
        } else {
            let ghost before = texts(rest@);
            rest.push(args[i].clone());
            assert(texts(rest@) =~= before.push(a[i as int]));
            i = i + 1;
        }
    }
    Ok((rest, store))
}

/// The first position of `w` in `v`.
pub open spec fn position(v: Seq<Seq<char>>, w: Seq<char>) -> Option<int> {
    if exists|i: int| 0 <= i < v.len() && v[i] == w {
        Some(choose|i: int| 0 <= i < v.len() && v[i] == w && forall|j: int| 0 <= j < i ==> v[j] != w)
    } else {
        None
    }
}

/// Takes `flag` and the value after it out of `args`. Without the flag,
/// nothing changes and the result is `Ok(None)`; with it as the last
/// argument, the flag alone is taken and the result is an error.
pub fn take_flag(args: &mut Vec<String>, flag: &str) -> (r: Result<Option<String>, String>)
    ensures
        match position(texts(old(args)@), flag@) {
            None => r == Ok::<Option<String>, String>(None) && final(args)@ == old(args)@,
            Some(p) => if p + 1 < old(args)@.len() {
                (r matches Ok(Some(v)) && v@ == old(args)@[p + 1]@) && final(args)@ == old(
                    args,
                )@.remove(p).remove(p)
            } else {
                r is Err && final(args)@ == old(args)@.remove(p)
            },
        },
{
    let f = chars_of(flag);
    let ghost a = texts(args@);
    let mut i: usize = 0;
    let mut found = false;
    while i < args.len() && !found
        invariant
            a == texts(args@),
            f@ == flag@,
            i <= args.len(),
            found ==> i < args.len() && a[i as int] == flag@,
            forall|j: int| 0 <= j < i ==> a[j] != flag@,
        decreases args.len() - i + (if found { 0int } else { 1int }),
    {
        if is_word(&args[i], &f) {
            found = true;
        } else {
            i = i + 1;
        }
    }
    if !found {
        assert(!(exists|j: int| 0 <= j < a.len() && a[j] == flag@));
        return Ok(None);
    }
    proof {
        assert(a[i as int] == flag@);
        let p = position(a, flag@);
        assert(p == Some(i as int)) by {
            let q = choose|j: int| 0 <= j < a.len() && a[j] == flag@ && forall|k: int| 0 <= k < j ==> a[k] != flag@;
            assert(0 <= i < a.len() && a[i as int] == flag@ && forall|k: int| 0 <= k < i ==> a[k] != flag@);
            if q < i {
            } else if q > i {
            }
        }
    }
    args.remove(i);
    if i >= args.len() {
        let mut m = chars_of(flag);
        append(&mut m, &chars_of(" needs a value"));
        return Err(string_of(&m));
    }
    let v = args.remove(i);
    Ok(Some(v))
}

/// The argument at `index`, or an error naming `what` is missing.
pub fn arg(args: &[String], index: usize, what: &str) -> (r: Result<String, String>)
    ensures
        match r {
            Ok(v) => index < args@.len() && v@ == args@[index as int]@,
            Err(_) => index >= args@.len(),
        },
{
    if index < args.len() {
        Ok(args[index].clone())
    } else {
        let mut m = chars_of("missing ");
        append(&mut m, &chars_of(what));
        append(&mut m, &chars_of("; see spirit-node help"));
        Err(string_of(&m))
    }
}

/// Where a seed comes from: given on the command line, or listed in a file.
#[derive(Debug, Clone, PartialEq, Eq)]
pub enum SeedSource {
    Seed(String),
    File(String),
}

pub enum SeedV {
    Seed(Seq<char>),
    File(Seq<char>),
}

/// The arguments of the `mesh` command.
#[derive(Debug, Clone, PartialEq, Eq)]
pub struct MeshArgs {
    pub dir: Option<String>,
    pub seeds: Vec<SeedSource>,
    pub wants: Vec<String>,
    pub no_pull: bool,
    pub gateway: Option<u16>,
}

pub struct MeshV {
    pub dir: Option<Seq<char>>,
    pub seeds: Seq<SeedV>,
    pub wants: Seq<Seq<char>>,
    pub no_pull: bool,
    pub gateway: Option<u16>,
}

pub open spec fn seed_view(s: SeedSource) -> SeedV {
    match s {
        SeedSource::Seed(t) => SeedV::Seed(t@),
        SeedSource::File(t) => SeedV::File(t@),
    }
}

pub open spec fn mesh_view(m: MeshArgs) -> MeshV {
    MeshV {
        dir: match m.dir {
            Some(d) => Some(d@),
            None => None,
        },
        seeds: Seq::new(m.seeds@.len(), |i: int| seed_view(m.seeds@[i])),
        wants: texts(m.wants@),
        no_pull: m.no_pull,
        gateway: m.gateway,
    }
}

/// Reading the `mesh` arguments from position `i` on, with what was read so
/// far: `--seed`, `--seed-file` and `--want` take the next argument,
/// `--no-pull` stands alone, `--gateway` takes a port, another `--` flag is
/// refused, and anything else is the store directory (the last one wins).
pub open spec fn mesh_from(args: Seq<Seq<char>>, i: int, m: MeshV) -> Result<MeshV, Seq<char>>
    decreases args.len() - i,
{
    if i < 0 || i >= args.len() {
        Ok(m)
    } else {
        let a = args[i];
        let has_next = i + 1 < args.len();
        if a == "--seed"@ {
            if !has_next {
                Err("--seed needs a ticket"@)
            } else {
                mesh_from(args, i + 2, MeshV { seeds: m.seeds.push(SeedV::Seed(args[i + 1])), ..m })
            }
        } else if a == "--seed-file"@ {
            if !has_next {
                Err("--seed-file needs a path"@)
            } else {
                mesh_from(args, i + 2, MeshV { seeds: m.seeds.push(SeedV::File(args[i + 1])), ..m })
            }
        } else if a == "--want"@ {
            if !has_next {
                Err("--want needs a set"@)
            } else {
                mesh_from(args, i + 2, MeshV { wants: m.wants.push(args[i + 1]), ..m })
            }
        } else if a == "--no-pull"@ {
            mesh_from(args, i + 1, MeshV { no_pull: true, ..m })
        } else if a == "--gateway"@ {
            if !has_next {
                Err("--gateway needs a port"@)
            } else {
                match parse_unsigned(args[i + 1], 65535) {
                    Some(p) => mesh_from(args, i + 2, MeshV { gateway: Some(p as u16), ..m }),
                    None => Err("--gateway port must be a number"@),
                }
            }
        } else if starts_with(a, "--"@) {
            Err("unknown flag "@ + a)
        } else {
            mesh_from(args, i + 1, MeshV { dir: Some(a), ..m })
        }
    }
}

pub open spec fn no_mesh_args() -> MeshV {
    MeshV { dir: None, seeds: Seq::empty(), wants: Seq::empty(), no_pull: false, gateway: None }
}

fn is_text(s: &String, w: &str) -> (r: bool)
    ensures
        r == (s@ == w@),
{
    same_chars(&chars_of(s.as_str()), &chars_of(w))
}

/// Reads the arguments of the `mesh` command.
pub fn parse_mesh_args(args: Vec<String>) -> (r: Result<MeshArgs, String>)
    ensures
        match r {
            Ok(m) => mesh_from(texts(args@), 0, no_mesh_args()) == Ok::<MeshV, Seq<char>>(mesh_view(m)),
            Err(e) => mesh_from(texts(args@), 0, no_mesh_args()) == Err::<MeshV, Seq<char>>(e@),
        },
{
    let ghost a = texts(args@);
    let mut m = MeshArgs { dir: None, seeds: Vec::new(), wants: Vec::new(), no_pull: false, gateway: None };
    let mut i: usize = 0;
    assert(mesh_view(m) =~= no_mesh_args()) by {
        assert(texts(m.wants@) =~= Seq::<Seq<char>>::empty());
        assert(Seq::new(m.seeds@.len(), |i: int| seed_view(m.seeds@[i])) =~= Seq::<SeedV>::empty());
    }
    while i < args.len()
        invariant
            a == texts(args@),
            i <= args.len(),
            mesh_from(a, 0, no_mesh_args()) == mesh_from(a, i as int, mesh_view(m)),
        decreases args.len() - i,
    {
        let arg = &args[i];
        let has_next = i + 1 < args.len();
        let ghost mv = mesh_view(m);
        if is_text(arg, "--seed") {
            if !has_next {
                return Err(string_of(&chars_of("--seed needs a ticket")));
            }
            m.seeds.push(SeedSource::Seed(args[i + 1].clone()));
            assert(mesh_view(m).seeds =~= mv.seeds.push(SeedV::Seed(a[i + 1])));
            i = i + 2;
        } else if is_text(arg, "--seed-file") {
            if !has_next {
                return Err(string_of(&chars_of("--seed-file needs a path")));
            }
            m.seeds.push(SeedSource::File(args[i + 1].clone()));
            assert(mesh_view(m).seeds =~= mv.seeds.push(SeedV::File(a[i + 1])));
            i = i + 2;
        } else if is_text(arg, "--want") {
            if !has_next {
                return Err(string_of(&chars_of("--want needs a set")));
            }
            m.wants.push(args[i + 1].clone());
            assert(mesh_view(m).wants =~= mv.wants.push(a[i + 1]));
            i = i + 2;
        } else if is_text(arg, "--no-pull") {
            m.no_pull = true;
            i = i + 1;
        } else if is_text(arg, "--gateway") {
            if !has_next {
                return Err(string_of(&chars_of("--gateway needs a port")));
            }
            match parse_decimal(&chars_of(args[i + 1].as_str()), 65535) {
                Some(p) => {
                    m.gateway = Some(p as u16);
                },
                None => {
                    return Err(string_of(&chars_of("--gateway port must be a number")));
                },
            }
            i = i + 2;
        } else if has_prefix(&chars_of(arg.as_str()), &chars_of("--")) {
            let mut t = chars_of("unknown flag ");
            append(&mut t, &chars_of(arg.as_str()));
            return Err(string_of(&t));
        } else {
            m.dir = Some(arg.clone());
            i = i + 1;
        }
    }
    Ok(m)
}

} // verus!
