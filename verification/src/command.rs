//! The command dispatcher: a tree of command specs, the argument parser,
//! and the handlers.
//!
//! A request is a non-empty list of byte-string tokens.  Dispatch folds
//! the leading tokens to lowercase and descends the spec tree; the
//! matched leaf says how many positional arguments are mandatory and
//! which named arguments are recognized.  `spec_execute` is the
//! dispatcher's whole meaning, from database state and tokens to the new
//! state and the reply bytes; `execute_command` is proved against it.

use vstd::prelude::*;
use vstd::slice::slice_to_vec;

use crate::ascii::{bytes_eq, fold_bytes, spec_fold};
use crate::assoc::{
    assoc_contains, assoc_get, assoc_keys_unique, lemma_assoc_find_same_keys,
    lemma_assoc_remove_props, lemma_assoc_set_props, spec_assoc_remove, spec_assoc_set,
};
use crate::database::{pair_views, Database, DatabaseView, DatasetView, Value, ValueV};
use crate::resp::{
    spec_enc_array_header, spec_enc_bulk, spec_enc_bulks, spec_enc_null_bulk, spec_enc_simple,
    write_array, write_bulk_string, write_null_bulk_string, write_simple_string,
};
use crate::num::{spec_dec, spec_parse_u64};

verus! {

/// A protocol-level command error: the request was framed correctly but
/// cannot be dispatched or parsed.  The driver reports it and closes the
/// connection.
#[derive(Clone, Copy, Debug, PartialEq, Eq, Structural)]
pub enum CmdError {
    /// The token list ended while command words were still expected.
    IncompleteCommand,
    /// No command (or subcommand) under the folded name.
    UnknownCommand,
    /// Fewer tokens than the command's mandatory positional arguments.
    NotEnoughArguments,
    /// A named argument sits closer to the end than the values it takes.
    MissingNamedValue,
    /// An argument's value is unusable: a `PX` span that is not a decimal
    /// number or does not fit the clock, or a `KEYS` pattern other than
    /// `*`.
    InvalidArgument,
}

pub open spec fn name_ping() -> Seq<u8> {
    seq![112u8, 105u8, 110u8, 103u8]
}

pub open spec fn name_echo() -> Seq<u8> {
    seq![101u8, 99u8, 104u8, 111u8]
}

pub open spec fn name_get() -> Seq<u8> {
    seq![103u8, 101u8, 116u8]
}

pub open spec fn name_set() -> Seq<u8> {
    seq![115u8, 101u8, 116u8]
}

pub open spec fn name_keys() -> Seq<u8> {
    seq![107u8, 101u8, 121u8, 115u8]
}

pub open spec fn name_config() -> Seq<u8> {
    seq![99u8, 111u8, 110u8, 102u8, 105u8, 103u8]
}

pub open spec fn name_px() -> Seq<u8> {
    seq![112u8, 120u8]
}

pub open spec fn reply_pong() -> Seq<u8> {
    seq![80u8, 79u8, 78u8, 71u8]
}

pub open spec fn reply_ok() -> Seq<u8> {
    seq![79u8, 75u8]
}

pub open spec fn star_pattern() -> Seq<u8> {
    seq![42u8]
}

/// The byte-string views of a token list.
pub open spec fn views_of(s: Seq<Vec<u8>>) -> Seq<Seq<u8>> {
    s.map_values(|v: Vec<u8>| v@)
}

/// Which handler a leaf routes to.
#[derive(Clone, Copy, Debug, PartialEq, Eq, Structural)]
pub enum HandlerId {
    Ping,
    Echo,
    Get,
    SetValue,
    Keys,
    ConfigGet,
}

/// A leaf of the spec tree: the mandatory positional argument count, the
/// recognized named arguments with how many values each consumes, and the
/// handler.
pub struct CmdSpec {
    pub leading_argc: usize,
    pub named_arg_argc: Vec<(Vec<u8>, usize)>,
    pub handler: HandlerId,
}

/// A node of the spec tree: a command, or a family of subcommands.
pub enum CmdItem {
    Leaf(CmdSpec),
    Subtree(CmdSpecs),
}

/// One level of the spec tree, keyed by lowercase command token.
pub struct CmdSpecs {
    pub entries: Vec<(Vec<u8>, CmdItem)>,
}

impl CmdSpec {
    pub fn new(handler: HandlerId) -> (r: CmdSpec)
        ensures
            r.handler == handler,
            r.leading_argc == 0,
            r.named_arg_argc@ == Seq::<(Vec<u8>, usize)>::empty(),
    {
        CmdSpec { leading_argc: 0, named_arg_argc: Vec::new(), handler }
    }

    pub fn leading(self, count: usize) -> (r: CmdSpec)
        ensures
            r.handler == self.handler,
            r.leading_argc == count,
            r.named_arg_argc == self.named_arg_argc,
    {
        CmdSpec { leading_argc: count, ..self }
    }

    pub fn named(self, name: Vec<u8>, count: usize) -> (r: CmdSpec)
        ensures
            r.handler == self.handler,
            r.leading_argc == self.leading_argc,
            r.named_arg_argc@ == self.named_arg_argc@.push((name, count)),
    {
        let mut r = self;
        r.named_arg_argc.push((name, count));
        r
    }

    pub fn flag(self, name: Vec<u8>) -> (r: CmdSpec)
        ensures
            r.handler == self.handler,
            r.leading_argc == self.leading_argc,
            r.named_arg_argc@ == self.named_arg_argc@.push((name, 0usize)),
    {
        self.named(name, 0)
    }
}

/// First tree entry under a folded name, if any.
pub open spec fn spec_cmd_lookup(entries: Seq<(Vec<u8>, CmdItem)>, name: Seq<u8>) -> Option<
    CmdItem,
>
    decreases entries.len(),
{
    if entries.len() == 0 {
        None
    } else if entries[0].0@ == name {
        Some(entries[0].1)
    } else {
        spec_cmd_lookup(entries.drop_first(), name)
    }
}

/// Descend the tree: fold the token at `i`, look it up, stop at a leaf.
pub open spec fn spec_find_spec(specs: CmdSpecs, toks: Seq<Seq<u8>>, i: int) -> Result<
    (CmdSpec, int),
    CmdError,
>
    decreases toks.len() - i,
{
    if i >= toks.len() {
        Err(CmdError::IncompleteCommand)
    } else {
        match spec_cmd_lookup(specs.entries@, spec_fold(toks[i])) {
            Some(CmdItem::Leaf(sp)) => Ok((sp, i + 1)),
            Some(CmdItem::Subtree(sub)) => spec_find_spec(sub, toks, i + 1),
            None => Err(CmdError::UnknownCommand),
        }
    }
}

/// Scan one tree level for a folded name.
fn cmd_lookup<'a>(entries: &'a Vec<(Vec<u8>, CmdItem)>, name: &[u8]) -> (r: Option<&'a CmdItem>)
    ensures
        match r {
            Some(it) => spec_cmd_lookup(entries@, name@) == Some(*it),
            None => spec_cmd_lookup(entries@, name@) is None,
        },
{
    let ghost es = entries@;
    proof {
        assert(es.skip(0) =~= es);
    }
    let mut i: usize = 0;
    while i < entries.len()
        invariant
            i <= es.len(),
            es == entries@,
            spec_cmd_lookup(es, name@) == spec_cmd_lookup(es.skip(i as int), name@),
        decreases es.len() - i,
    {
        proof {
            assert(es.skip(i as int)[0] == es[i as int]);
            assert(es.skip(i as int).drop_first() =~= es.skip(i + 1));
        }
        if bytes_eq(entries[i].0.as_slice(), name) {
            return Some(&entries[i].1);
        }
        i = i + 1;
    }
    proof {
        assert(es.skip(i as int).len() == 0);
    }
    None
}

/// Walk the spec tree with the tokens from `i` on, to the leaf that will
/// interpret the rest of the request.
pub fn find_spec<'a>(specs: &'a CmdSpecs, tokens: &Vec<Vec<u8>>, i: usize) -> (r: Result<
    (&'a CmdSpec, usize),
    CmdError,
>)
    requires
        i <= tokens@.len(),
    ensures
        match r {
            Ok((sp, j)) => spec_find_spec(*specs, views_of(tokens@), i as int) == Ok::<
                _,
                CmdError,
            >((*sp, j as int)) && i < j <= tokens@.len(),
            Err(e) => spec_find_spec(*specs, views_of(tokens@), i as int) == Err::<
                (CmdSpec, int),
                _,
            >(e),
        },
    decreases tokens@.len() - i,
{
    let ghost toks = views_of(tokens@);
    if i >= tokens.len() {
        return Err(CmdError::IncompleteCommand);
    }
    let folded = fold_bytes(tokens[i].as_slice());
    proof {
        assert(toks[i as int] == tokens@[i as int]@);
    }
    match cmd_lookup(&specs.entries, folded.as_slice()) {
        Some(CmdItem::Leaf(sp)) => Ok((sp, i + 1)),
        Some(CmdItem::Subtree(sub)) => find_spec(sub, tokens, i + 1),
        None => Err(CmdError::UnknownCommand),
    }
}

/// The leaf under `w` has this shape: positional count, named-argument
/// table (by view) and handler.
pub open spec fn lookup_is_leaf(
    entries: Seq<(Vec<u8>, CmdItem)>,
    w: Seq<u8>,
    leading: int,
    named: Seq<(Seq<u8>, usize)>,
    h: HandlerId,
) -> bool {
    match spec_cmd_lookup(entries, w) {
        Some(CmdItem::Leaf(sp)) => sp.leading_argc == leading && pair_views(sp.named_arg_argc@)
            == named && sp.handler == h,
        _ => false,
    }
}

pub open spec fn no_named() -> Seq<(Seq<u8>, usize)> {
    Seq::empty()
}

pub open spec fn set_named() -> Seq<(Seq<u8>, usize)> {
    seq![(name_px(), 1usize)]
}

/// What the command tree holds, stated as what every lookup in it
/// returns: the commands of the core, with `config get` one level down,
/// and nothing else.
pub open spec fn is_command_specs(specs: CmdSpecs) -> bool {
    let es = specs.entries@;
    &&& lookup_is_leaf(es, name_ping(), 0, no_named(), HandlerId::Ping)
    &&& lookup_is_leaf(es, name_echo(), 1, no_named(), HandlerId::Echo)
    &&& lookup_is_leaf(es, name_get(), 1, no_named(), HandlerId::Get)
    &&& lookup_is_leaf(es, name_set(), 2, set_named(), HandlerId::SetValue)
    &&& lookup_is_leaf(es, name_keys(), 1, no_named(), HandlerId::Keys)
    &&& (match spec_cmd_lookup(es, name_config()) {
        Some(CmdItem::Subtree(sub)) => {
            &&& lookup_is_leaf(sub.entries@, name_get(), 1, no_named(), HandlerId::ConfigGet)
            &&& (forall|w: Seq<u8>|
                w != name_get() ==> (#[trigger] spec_cmd_lookup(sub.entries@, w)) is None)
        },
        _ => false,
    })
    &&& (forall|w: Seq<u8>|
        !(w == name_ping() || w == name_echo() || w == name_get() || w == name_set() || w
            == name_keys() || w == name_config()) ==> (#[trigger] spec_cmd_lookup(es, w)) is None)
}

/// One unfolding step of a tree-level lookup.
proof fn lemma_cmd_lookup_step(entries: Seq<(Vec<u8>, CmdItem)>, w: Seq<u8>)
    requires
        entries.len() > 0,
    ensures
        spec_cmd_lookup(entries, w) == (if entries[0].0@ == w {
            Some(entries[0].1)
        } else {
            spec_cmd_lookup(entries.drop_first(), w)
        }),
{
}

/// Build the command tree of the core.
pub fn create_command_specs() -> (r: CmdSpecs)
    ensures
        is_command_specs(r),
{
    let n_ping: Vec<u8> = vec![112u8, 105u8, 110u8, 103u8];
    let it_ping = CmdItem::Leaf(CmdSpec::new(HandlerId::Ping));
    let n_echo: Vec<u8> = vec![101u8, 99u8, 104u8, 111u8];
    let it_echo = CmdItem::Leaf(CmdSpec::new(HandlerId::Echo).leading(1));
    let n_get: Vec<u8> = vec![103u8, 101u8, 116u8];
    let it_get = CmdItem::Leaf(CmdSpec::new(HandlerId::Get).leading(1));
    let n_set: Vec<u8> = vec![115u8, 101u8, 116u8];
    let n_px: Vec<u8> = vec![112u8, 120u8];
    let it_set = CmdItem::Leaf(CmdSpec::new(HandlerId::SetValue).leading(2).named(n_px, 1));
    let n_keys: Vec<u8> = vec![107u8, 101u8, 121u8, 115u8];
    let it_keys = CmdItem::Leaf(CmdSpec::new(HandlerId::Keys).leading(1));

    let n_sub_get: Vec<u8> = vec![103u8, 101u8, 116u8];
    let it_sub_get = CmdItem::Leaf(CmdSpec::new(HandlerId::ConfigGet).leading(1));
    let mut sub_entries: Vec<(Vec<u8>, CmdItem)> = Vec::new();
    sub_entries.push((n_sub_get, it_sub_get));
    let n_config: Vec<u8> = vec![99u8, 111u8, 110u8, 102u8, 105u8, 103u8];
    let it_config = CmdItem::Subtree(CmdSpecs { entries: sub_entries });

    let mut entries: Vec<(Vec<u8>, CmdItem)> = Vec::new();
    entries.push((n_ping, it_ping));
    entries.push((n_echo, it_echo));
    entries.push((n_get, it_get));
    entries.push((n_set, it_set));
    entries.push((n_keys, it_keys));
    entries.push((n_config, it_config));
    let r = CmdSpecs { entries };
    proof {
        let es = r.entries@;
        assert(es.len() == 6);
        let d1 = es.drop_first();
        let d2 = d1.drop_first();
        let d3 = d2.drop_first();
        let d4 = d3.drop_first();
        let d5 = d4.drop_first();
        let d6 = d5.drop_first();
        assert(d1 =~= es.subrange(1, 6));
        assert(d2 =~= es.subrange(2, 6));
        assert(d3 =~= es.subrange(3, 6));
        assert(d4 =~= es.subrange(4, 6));
        assert(d5 =~= es.subrange(5, 6));
        assert(d6 =~= es.subrange(6, 6));
        assert forall|w: Seq<u8>| spec_cmd_lookup(es, w) == (if w == name_ping() {
            Some(es[0].1)
        } else if w == name_echo() {
            Some(es[1].1)
        } else if w == name_get() {
            Some(es[2].1)
        } else if w == name_set() {
            Some(es[3].1)
        } else if w == name_keys() {
            Some(es[4].1)
        } else if w == name_config() {
            Some(es[5].1)
        } else {
            None
        }) by {
            lemma_cmd_lookup_step(es, w);
            lemma_cmd_lookup_step(d1, w);
            lemma_cmd_lookup_step(d2, w);
            lemma_cmd_lookup_step(d3, w);
            lemma_cmd_lookup_step(d4, w);
            lemma_cmd_lookup_step(d5, w);
            assert(d6.len() == 0);
        }
        let sub = r.entries@[5].1->Subtree_0;
        assert(sub.entries@.len() == 1);
        assert forall|w: Seq<u8>| spec_cmd_lookup(sub.entries@, w) == (if w == name_get() {
            Some(sub.entries@[0].1)
        } else {
            None
        }) by {
            lemma_cmd_lookup_step(sub.entries@, w);
            assert(sub.entries@.drop_first().len() == 0);
        }
        assert(pair_views(it_ping->Leaf_0.named_arg_argc@) =~= no_named());
        assert(pair_views(it_echo->Leaf_0.named_arg_argc@) =~= no_named());
        assert(pair_views(it_get->Leaf_0.named_arg_argc@) =~= no_named());
        assert(pair_views(it_set->Leaf_0.named_arg_argc@) =~= set_named());
        assert(pair_views(it_keys->Leaf_0.named_arg_argc@) =~= no_named());
        assert(pair_views(it_sub_get->Leaf_0.named_arg_argc@) =~= no_named());
    }
    r
}

/// A parsed request: the positional arguments, and each recognized named
/// argument with the values it consumed.
pub struct ParsedArgs {
    pub args: Vec<Vec<u8>>,
    pub named_args: Vec<(Vec<u8>, Vec<Vec<u8>>)>,
}

/// Mathematical shape of a parsed request.
pub struct ArgsView {
    pub args: Seq<Seq<u8>>,
    pub named: Seq<(Seq<u8>, Seq<Seq<u8>>)>,
}

pub open spec fn named_views(s: Seq<(Vec<u8>, Vec<Vec<u8>>)>) -> Seq<(Seq<u8>, Seq<Seq<u8>>)> {
    s.map_values(|p: (Vec<u8>, Vec<Vec<u8>>)| (p.0@, views_of(p.1@)))
}

pub open spec fn parsed_view(p: ParsedArgs) -> ArgsView {
    ArgsView { args: views_of(p.args@), named: named_views(p.named_args@) }
}

/// Walk the tokens after the positional arguments: a token that folds to
/// a recognized name consumes that many following tokens as its values
/// (the last binding wins); any other token is one more positional
/// argument.
pub open spec fn spec_parse_named(
    ns: Seq<(Seq<u8>, usize)>,
    rem: Seq<Seq<u8>>,
    acc: ArgsView,
) -> Result<ArgsView, CmdError>
    decreases rem.len(),
{
    if rem.len() == 0 {
        Ok(acc)
    } else {
        let w = spec_fold(rem[0]);
        match assoc_get(ns, w) {
            Some(k) => if k as int > rem.len() - 1 {
                Err(CmdError::MissingNamedValue)
            } else {
                spec_parse_named(
                    ns,
                    rem.skip(1 + k as int),
                    ArgsView {
                        args: acc.args,
                        named: spec_assoc_set(acc.named, w, rem.subrange(1, 1 + k as int)),
                    },
                )
            },
            None => spec_parse_named(
                ns,
                rem.skip(1),
                ArgsView { args: acc.args.push(rem[0]), named: acc.named },
            ),
        }
    }
}

/// Parse the tokens after the command words: the first `leading` are the
/// mandatory positional arguments, the rest go by `spec_parse_named`.
pub open spec fn spec_parse_args(
    leading: int,
    ns: Seq<(Seq<u8>, usize)>,
    toks: Seq<Seq<u8>>,
) -> Result<ArgsView, CmdError> {
    if toks.len() < leading {
        Err(CmdError::NotEnoughArguments)
    } else {
        spec_parse_named(
            ns,
            toks.skip(leading),
            ArgsView { args: toks.take(leading), named: Seq::empty() },
        )
    }
}

/// Parsing only appends positional arguments: the ones already taken stay
/// in place.
pub proof fn lemma_parse_named_extends(ns: Seq<(Seq<u8>, usize)>, rem: Seq<Seq<u8>>, acc: ArgsView)
    ensures
        match spec_parse_named(ns, rem, acc) {
            Ok(out) => out.args.len() >= acc.args.len() && out.args.take(acc.args.len() as int)
                == acc.args,
            Err(_) => true,
        },
    decreases rem.len(),
{
    if rem.len() == 0 {
        assert(acc.args.take(acc.args.len() as int) =~= acc.args);
    } else {
        let w = spec_fold(rem[0]);
        match assoc_get(ns, w) {
            Some(k) => {
                if k as int > rem.len() - 1 {
                } else {
                    let acc2 = ArgsView {
                        args: acc.args,
                        named: spec_assoc_set(acc.named, w, rem.subrange(1, 1 + k as int)),
                    };
                    lemma_parse_named_extends(ns, rem.skip(1 + k as int), acc2);
                }
            },
            None => {
                let acc2 = ArgsView { args: acc.args.push(rem[0]), named: acc.named };
                lemma_parse_named_extends(ns, rem.skip(1), acc2);
                match spec_parse_named(ns, rem.skip(1), acc2) {
                    Ok(out) => {
                        assert(out.args.take(acc.args.len() as int) =~= out.args.take(
                            acc2.args.len() as int,
                        ).take(acc.args.len() as int));
                        assert(acc2.args.take(acc.args.len() as int) =~= acc.args);
                    },
                    Err(_) => {},
                }
            },
        }
    }
}

/// Parse the request tokens from `start` on, as the matched leaf asks.
pub fn parse_args(
    leading_argc: usize,
    named_arg_argc: &Vec<(Vec<u8>, usize)>,
    tokens: &Vec<Vec<u8>>,
    start: usize,
) -> (r: Result<ParsedArgs, CmdError>)
    requires
        start <= tokens@.len(),
    ensures
        ({
            let sres = spec_parse_args(
                leading_argc as int,
                pair_views(named_arg_argc@),
                views_of(tokens@).skip(start as int),
            );
            match r {
                Ok(p) => sres == Ok::<_, CmdError>(parsed_view(p)),
                Err(e) => sres == Err::<ArgsView, _>(e),
            }
        }),
{
    let ghost toks = views_of(tokens@).skip(start as int);
    let ghost ns = pair_views(named_arg_argc@);
    let n = tokens.len();
    if n - start < leading_argc {
        return Err(CmdError::NotEnoughArguments);
    }
    let mut args: Vec<Vec<u8>> = Vec::new();
    let mut i: usize = start;
    while i < start + leading_argc
        invariant
            start <= i <= start + leading_argc <= n,
            n == tokens@.len(),
            args@.len() == i - start,
            forall|j: int| 0 <= j < args@.len() ==> (#[trigger] args@[j])@ == tokens@[start + j]@,
        decreases start + leading_argc - i,
    {
        args.push(slice_to_vec(tokens[i].as_slice()));
        i = i + 1;
    }
    proof {
        assert(views_of(args@) =~= toks.take(leading_argc as int));
    }
    let mut named_args: Vec<(Vec<u8>, Vec<Vec<u8>>)> = Vec::new();
    proof {
        assert(named_views(named_args@) =~= Seq::<(Seq<u8>, Seq<Seq<u8>>)>::empty());
        assert(views_of(tokens@).skip(i as int) =~= toks.skip(leading_argc as int));
    }
    while i < n
        invariant
            start + leading_argc <= i <= n,
            n == tokens@.len(),
            toks == views_of(tokens@).skip(start as int),
            ns == pair_views(named_arg_argc@),
            leading_argc <= toks.len(),
            spec_parse_args(leading_argc as int, ns, toks) == spec_parse_named(
                ns,
                views_of(tokens@).skip(i as int),
                ArgsView { args: views_of(args@), named: named_views(named_args@) },
            ),
        decreases n - i,
    {
        let ghost rem = views_of(tokens@).skip(i as int);
        let ghost acc = ArgsView { args: views_of(args@), named: named_views(named_args@) };
        let w = fold_bytes(tokens[i].as_slice());
        proof {
            assert(rem[0] == tokens@[i as int]@);
            assert(w@ == spec_fold(rem[0]));
        }
        match crate::database::assoc_index_of(named_arg_argc, w.as_slice()) {
            Some(j) => {
                let k = named_arg_argc[j].1;
                proof {
                    assert(ns[j as int].1 == named_arg_argc@[j as int].1@);
                    assert(assoc_get(ns, w@) == Some(k));
                }
                if k > (n - i) - 1 {
                    return Err(CmdError::MissingNamedValue);
                }
                let mut values: Vec<Vec<u8>> = Vec::new();
                let mut t = i + 1;
                while t < i + 1 + k
                    invariant
                        i + 1 <= t <= i + 1 + k,
                        i + 1 + k <= n,
                        n == tokens@.len(),
                        values@.len() == t - i - 1,
                        forall|j2: int| 0 <= j2 < values@.len() ==> (#[trigger] values@[j2])@
                            == tokens@[i + 1 + j2]@,
                    decreases i + 1 + k - t,
                {
                    values.push(slice_to_vec(tokens[t].as_slice()));
                    t = t + 1;
                }
                proof {
                    assert(views_of(values@) =~= rem.subrange(1, 1 + k as int));
                }
                let ghost old_named = named_views(named_args@);
                match crate::database::assoc_index_of(&named_args, w.as_slice()) {
                    Some(m) => {
                        proof {
                            lemma_assoc_find_same_keys(pair_views(named_args@), old_named, w@);
                        }
                        named_args.set(m, (w, values));
                        proof {
                            assert(named_views(named_args@) =~= old_named.update(
                                m as int,
                                (w@, rem.subrange(1, 1 + k as int)),
                            ));
                        }
                    },
                    None => {
                        proof {
                            lemma_assoc_find_same_keys(pair_views(named_args@), old_named, w@);
                        }
                        named_args.push((w, values));
                        proof {
                            assert(named_views(named_args@) =~= old_named.push(
                                (w@, rem.subrange(1, 1 + k as int)),
                            ));
                        }
                    },
                }
                i = i + 1 + k;
                proof {
                    assert(views_of(tokens@).skip(i as int) =~= rem.skip(1 + k as int));
                }
            },
            None => {
                proof {
                    assert(assoc_get(ns, w@) is None);
                }
                args.push(slice_to_vec(tokens[i].as_slice()));
                i = i + 1;
                proof {
                    assert(views_of(args@) =~= acc.args.push(rem[0]));
                    assert(views_of(tokens@).skip(i as int) =~= rem.skip(1));
                }
            },
        }
    }
    proof {
        assert(views_of(tokens@).skip(i as int).len() == 0);
    }
    Ok(ParsedArgs { args, named_args })
}

} // verus!

// The dispatcher's meaning, command by command, and the handlers proved
// against it.

verus! {

/// The database with its first dataset replaced.
pub open spec fn db_with_ds0(db: DatabaseView, d: DatasetView) -> DatabaseView {
    DatabaseView { config: db.config, datasets: db.datasets.update(0, d) }
}

/// The reply a read yields: the value as a bulk string, or the null bulk
/// string.
pub open spec fn spec_get_reply(d: DatasetView, k: Seq<u8>, now: u64) -> Seq<u8> {
    match d.lookup(k, now) {
        Some(v) => match v {
            ValueV::Str(b) => spec_enc_bulk(b),
        },
        None => spec_enc_null_bulk(),
    }
}

/// What a store does to the dataset: the value is upserted; with `PX` the
/// expiry becomes `now + ms`, without it any expiry is dropped.
pub open spec fn spec_set_effect(
    d: DatasetView,
    k: Seq<u8>,
    v: Seq<u8>,
    px: Option<u64>,
    now: u64,
) -> DatasetView {
    match px {
        Some(ms) => DatasetView {
            data: spec_assoc_set(d.data, k, ValueV::Str(v)),
            expiry: spec_assoc_set(d.expiry, k, (now + ms) as u64),
        },
        None => DatasetView {
            data: spec_assoc_set(d.data, k, ValueV::Str(v)),
            expiry: spec_assoc_remove(d.expiry, k),
        },
    }
}

/// The store command, after parsing: `px` is the bound value list of the
/// named argument, when it was given.
pub open spec fn spec_set_apply(
    db: DatabaseView,
    k: Seq<u8>,
    v: Seq<u8>,
    px: Option<Seq<Seq<u8>>>,
    now: u64,
) -> Result<(DatabaseView, Seq<u8>), CmdError> {
    match px {
        Some(pxvals) => match spec_parse_u64(pxvals[0]) {
            Some(ms) => if now + ms > u64::MAX {
                Err(CmdError::InvalidArgument)
            } else {
                Ok(
                    (
                        db_with_ds0(db, spec_set_effect(db.datasets[0], k, v, Some(ms), now)),
                        spec_enc_simple(reply_ok()),
                    ),
                )
            },
            None => Err(CmdError::InvalidArgument),
        },
        None => Ok(
            (
                db_with_ds0(db, spec_set_effect(db.datasets[0], k, v, None, now)),
                spec_enc_simple(reply_ok()),
            ),
        ),
    }
}

/// The keys of a dataset, in store order.
pub open spec fn dataset_keys(d: DatasetView) -> Seq<Seq<u8>> {
    d.data.map_values(|p: (Seq<u8>, ValueV)| p.0)
}

/// The key-listing command: only the `*` pattern is supported; the reply
/// frames every stored key, live or expired.
pub open spec fn spec_keys_apply(db: DatabaseView, pattern: Seq<u8>) -> Result<
    (DatabaseView, Seq<u8>),
    CmdError,
> {
    if pattern != star_pattern() {
        Err(CmdError::InvalidArgument)
    } else if dataset_keys(db.datasets[0]).len() > i64::MAX {
        Err(CmdError::InvalidArgument)
    } else {
        Ok(
            (
                db,
                spec_enc_array_header(dataset_keys(db.datasets[0]).len() as int) + spec_enc_bulks(
                    dataset_keys(db.datasets[0]),
                ),
            ),
        )
    }
}

/// The config read: a two-element array of the key and its value (or the
/// null bulk string).
pub open spec fn spec_config_get_reply(db: DatabaseView, k: Seq<u8>) -> Seq<u8> {
    spec_enc_array_header(2) + spec_enc_bulk(k) + (match assoc_get(db.config, k) {
        Some(v) => spec_enc_bulk(v),
        None => spec_enc_null_bulk(),
    })
}

pub open spec fn spec_ping(db: DatabaseView, rest: Seq<Seq<u8>>) -> Result<
    (DatabaseView, Seq<u8>),
    CmdError,
> {
    match spec_parse_args(0, no_named(), rest) {
        Ok(_) => Ok((db, spec_enc_simple(reply_pong()))),
        Err(e) => Err(e),
    }
}

pub open spec fn spec_echo(db: DatabaseView, rest: Seq<Seq<u8>>) -> Result<
    (DatabaseView, Seq<u8>),
    CmdError,
> {
    match spec_parse_args(1, no_named(), rest) {
        Ok(a) => Ok((db, spec_enc_bulk(a.args[0]))),
        Err(e) => Err(e),
    }
}

pub open spec fn spec_get_cmd(db: DatabaseView, rest: Seq<Seq<u8>>, now: u64) -> Result<
    (DatabaseView, Seq<u8>),
    CmdError,
> {
    match spec_parse_args(1, no_named(), rest) {
        Ok(a) => Ok((db, spec_get_reply(db.datasets[0], a.args[0], now))),
        Err(e) => Err(e),
    }
}

pub open spec fn spec_set_cmd(db: DatabaseView, rest: Seq<Seq<u8>>, now: u64) -> Result<
    (DatabaseView, Seq<u8>),
    CmdError,
> {
    match spec_parse_args(2, set_named(), rest) {
        Ok(a) => spec_set_apply(db, a.args[0], a.args[1], assoc_get(a.named, name_px()), now),
        Err(e) => Err(e),
    }
}

pub open spec fn spec_keys_cmd(db: DatabaseView, rest: Seq<Seq<u8>>) -> Result<
    (DatabaseView, Seq<u8>),
    CmdError,
> {
    match spec_parse_args(1, no_named(), rest) {
        Ok(a) => spec_keys_apply(db, a.args[0]),
        Err(e) => Err(e),
    }
}

pub open spec fn spec_config_get_cmd(db: DatabaseView, rest: Seq<Seq<u8>>) -> Result<
    (DatabaseView, Seq<u8>),
    CmdError,
> {
    match spec_parse_args(1, no_named(), rest) {
        Ok(a) => Ok((db, spec_config_get_reply(db, a.args[0]))),
        Err(e) => Err(e),
    }
}

/// The dispatcher's whole meaning: from the database, the request tokens
/// and the wall clock to the new database and the reply bytes, or the
/// protocol error that closes the connection.
pub open spec fn spec_execute(db: DatabaseView, toks: Seq<Seq<u8>>, now: u64) -> Result<
    (DatabaseView, Seq<u8>),
    CmdError,
> {
    if toks.len() == 0 {
        Err(CmdError::IncompleteCommand)
    } else {
        let c = spec_fold(toks[0]);
        let rest = toks.skip(1);
        if c == name_ping() {
            spec_ping(db, rest)
        } else if c == name_echo() {
            spec_echo(db, rest)
        } else if c == name_get() {
            spec_get_cmd(db, rest, now)
        } else if c == name_set() {
            spec_set_cmd(db, rest, now)
        } else if c == name_keys() {
            spec_keys_cmd(db, rest)
        } else if c == name_config() {
            if toks.len() < 2 {
                Err(CmdError::IncompleteCommand)
            } else if spec_fold(toks[1]) == name_get() {
                spec_config_get_cmd(db, toks.skip(2))
            } else {
                Err(CmdError::UnknownCommand)
            }
        } else {
            Err(CmdError::UnknownCommand)
        }
    }
}

/// Reply with `PONG`.
pub fn handle_ping(out: &mut Vec<u8>)
    ensures
        final(out)@ == old(out)@ + spec_enc_simple(reply_pong()),
{
    let pong: Vec<u8> = vec![80u8, 79u8, 78u8, 71u8];
    proof {
        assert(forall|i: int| 0 <= i < pong@.len() ==> pong@[i] != 13 && pong@[i] != 10);
    }
    write_simple_string(out, pong.as_slice());
}

/// Reply with the first argument, verbatim, as a bulk string.
pub fn handle_echo(args: &ParsedArgs, out: &mut Vec<u8>)
    requires
        args.args@.len() >= 1,
    ensures
        final(out)@ == old(out)@ + spec_enc_bulk(parsed_view(*args).args[0]),
{
    write_bulk_string(out, args.args[0].as_slice());
}

/// Reply with the value visible at `now_ms` under the first argument, or
/// the null bulk string.
pub fn handle_get(db: &Database, args: &ParsedArgs, now_ms: u64, out: &mut Vec<u8>)
    requires
        db.wf(),
        args.args@.len() >= 1,
    ensures
        final(out)@ == old(out)@ + spec_get_reply(db@.datasets[0], parsed_view(*args).args[0], now_ms),
{
    let ds = db.read(0);
    match ds.get_at(args.args[0].as_slice(), now_ms) {
        Some(v) => match v {
            Value::String(data) => write_bulk_string(out, data.as_slice()),
        },
        None => write_null_bulk_string(out),
    }
}

} // verus!

verus! {

/// Every bound named argument holds exactly as many values as the table
/// says its name consumes.
pub proof fn lemma_parse_named_values(ns: Seq<(Seq<u8>, usize)>, rem: Seq<Seq<u8>>, acc: ArgsView)
    requires
        assoc_keys_unique(acc.named),
        forall|w: Seq<u8>| (#[trigger] assoc_get(acc.named, w)) is Some ==> assoc_get(ns, w)
            is Some && assoc_get(acc.named, w)->Some_0.len() == assoc_get(ns, w)->Some_0,
    ensures
        match spec_parse_named(ns, rem, acc) {
            Ok(out) => assoc_keys_unique(out.named) && (forall|w: Seq<u8>|
                (#[trigger] assoc_get(out.named, w)) is Some ==> assoc_get(ns, w) is Some
                    && assoc_get(out.named, w)->Some_0.len() == assoc_get(ns, w)->Some_0),
            Err(_) => true,
        },
    decreases rem.len(),
{
    if rem.len() == 0 {
    } else {
        let w = spec_fold(rem[0]);
        match assoc_get(ns, w) {
            Some(k) => {
                if k as int > rem.len() - 1 {
                } else {
                    let vals = rem.subrange(1, 1 + k as int);
                    lemma_assoc_set_props(acc.named, w, vals);
                    let acc2 = ArgsView {
                        args: acc.args,
                        named: spec_assoc_set(acc.named, w, vals),
                    };
                    assert forall|q: Seq<u8>| (#[trigger] assoc_get(acc2.named, q))
                        is Some implies assoc_get(ns, q) is Some && assoc_get(acc2.named, q)
                        ->Some_0.len() == assoc_get(ns, q)->Some_0 by {
                        if q != w {
                            assert(assoc_get(acc2.named, q) == assoc_get(acc.named, q));
                        }
                    }
                    lemma_parse_named_values(ns, rem.skip(1 + k as int), acc2);
                }
            },
            None => {
                lemma_parse_named_values(
                    ns,
                    rem.skip(1),
                    ArgsView { args: acc.args.push(rem[0]), named: acc.named },
                );
            },
        }
    }
}

/// Store a value under the first argument, with the second as the value;
/// a `px` named argument sets the expiry to that many milliseconds from
/// `now_ms`, its absence clears any expiry.  Replies `OK`.
pub fn handle_set(db: &mut Database, args: &ParsedArgs, now_ms: u64, out: &mut Vec<u8>) -> (r:
    Result<(), CmdError>)
    requires
        old(db).wf(),
        args.args@.len() >= 2,
        match assoc_get(parsed_view(*args).named, name_px()) {
            Some(vs) => vs.len() == 1,
            None => true,
        },
    ensures
        final(db).wf(),
        ({
            let a = parsed_view(*args);
            match spec_set_apply(old(db)@, a.args[0], a.args[1], assoc_get(a.named, name_px()), now_ms) {
                Ok((db2, rep)) => r is Ok && final(db)@ == db2 && final(out)@ == old(out)@ + rep,
                Err(e) => r == Err::<(), CmdError>(e) && final(db)@ == old(db)@ && final(out)@
                    == old(out)@,
            }
        }),
{
    let ghost a = parsed_view(*args);
    let px_name: Vec<u8> = vec![112u8, 120u8];
    let px_opt = match crate::database::assoc_index_of(&args.named_args, px_name.as_slice()) {
        Some(m) => {
            proof {
                lemma_assoc_find_same_keys(
                    pair_views(args.named_args@),
                    named_views(args.named_args@),
                    px_name@,
                );
                assert(named_views(args.named_args@)[m as int].1 == views_of(
                    args.named_args@[m as int].1@,
                ));
            }
            Some(&args.named_args[m].1)
        },
        None => {
            proof {
                lemma_assoc_find_same_keys(
                    pair_views(args.named_args@),
                    named_views(args.named_args@),
                    px_name@,
                );
            }
            None
        },
    };
    let expiry: Option<u64> = match px_opt {
        Some(pxvals) => {
            let ms = match crate::num::parse_u64(pxvals[0].as_slice()) {
                Some(ms) => ms,
                None => {
                    return Err(CmdError::InvalidArgument);
                },
            };
            if ms > u64::MAX - now_ms {
                return Err(CmdError::InvalidArgument);
            }
            Some(now_ms + ms)
        },
        None => None,
    };
    let key = slice_to_vec(args.args[0].as_slice());
    let value = slice_to_vec(args.args[1].as_slice());
    let ds = db.write(0);
    match expiry {
        Some(t) => {
            let key2 = slice_to_vec(key.as_slice());
            ds.set_expiry(key2, t);
        },
        None => {
            ds.unset_expiry(key.as_slice());
        },
    }
    ds.set(key, Value::String(value));
    let ok_reply: Vec<u8> = vec![79u8, 75u8];
    proof {
        assert(forall|i: int| 0 <= i < ok_reply@.len() ==> ok_reply@[i] != 13 && ok_reply@[i]
            != 10);
        assert(db@.datasets =~= old(db)@.datasets.update(
            0,
            spec_set_effect(
                old(db)@.datasets[0],
                a.args[0],
                a.args[1],
                match assoc_get(a.named, name_px()) {
                    Some(_) => Some((expiry->Some_0 - now_ms) as u64),
                    None => None,
                },
                now_ms,
            ),
        ));
        assert forall|i: int| 0 <= i < db@.datasets.len() implies (
        #[trigger] db@.datasets[i]).wf() by {
            if i != 0 {
                assert(db@.datasets[i] == old(db)@.datasets[i]);
            }
        }
    }
    write_simple_string(out, ok_reply.as_slice());
    Ok(())
}

/// List every stored key when the pattern is `*`; reject any other
/// pattern.
pub fn handle_keys(db: &Database, args: &ParsedArgs, out: &mut Vec<u8>) -> (r: Result<
    (),
    CmdError,
>)
    requires
        db.wf(),
        args.args@.len() >= 1,
    ensures
        ({
            let a = parsed_view(*args);
            match spec_keys_apply(db@, a.args[0]) {
                Ok((_, rep)) => r is Ok && final(out)@ == old(out)@ + rep,
                Err(e) => r == Err::<(), CmdError>(e) && final(out)@ == old(out)@,
            }
        }),
{
    let star: Vec<u8> = vec![42u8];
    proof {
        assert(parsed_view(*args).args[0] == args.args@[0]@);
        assert(star@ =~= star_pattern());
    }
    if !bytes_eq(args.args[0].as_slice(), star.as_slice()) {
        return Err(CmdError::InvalidArgument);
    }
    let ds = db.read(0);
    let keys = ds.all_keys();
    let ghost kviews = dataset_keys(db@.datasets[0]);
    proof {
        assert(views_of(keys@) =~= kviews);
    }
    if keys.len() as u64 > i64::MAX as u64 {
        return Err(CmdError::InvalidArgument);
    }
    write_array(out, keys.len() as i64);
    let ghost base = out@;
    let mut i: usize = 0;
    while i < keys.len()
        invariant
            i <= keys@.len(),
            kviews == views_of(keys@),
            kviews.len() == keys@.len(),
            out@ == base + spec_enc_bulks(kviews.take(i as int)),
        decreases keys@.len() - i,
    {
        proof {
            assert(kviews.take(i + 1) =~= kviews.take(i as int).push(kviews[i as int]));
            crate::resp::lemma_enc_bulks_push(kviews.take(i as int), kviews[i as int]);
            assert(kviews[i as int] == keys@[i as int]@);
        }
        write_bulk_string(out, keys[i].as_slice());
        proof {
            assert(base + spec_enc_bulks(kviews.take(i as int)) + spec_enc_bulk(kviews[i as int])
                =~= base + spec_enc_bulks(kviews.take(i + 1)));
        }
        i = i + 1;
    }
    proof {
        assert(kviews.take(keys@.len() as int) =~= kviews);
    }
    Ok(())
}

/// Reply with a two-element array: the config key, then its value or the
/// null bulk string.
pub fn handle_config_get(db: &Database, args: &ParsedArgs, out: &mut Vec<u8>)
    requires
        db.wf(),
        args.args@.len() >= 1,
    ensures
        final(out)@ == old(out)@ + spec_config_get_reply(db@, parsed_view(*args).args[0]),
{
    write_array(out, 2);
    write_bulk_string(out, args.args[0].as_slice());
    match db.get_config(args.args[0].as_slice()) {
        Some(v) => write_bulk_string(out, v.as_slice()),
        None => write_null_bulk_string(out),
    }
    proof {
        assert(out@ =~= old(out)@ + spec_config_get_reply(db@, parsed_view(*args).args[0]));
    }
}

} // verus!

verus! {

/// Shape of a successful descent: the leaf's fields and the position of
/// the first argument token.
pub open spec fn is_leaf_result(
    r: Result<(CmdSpec, int), CmdError>,
    leading: int,
    named: Seq<(Seq<u8>, usize)>,
    h: HandlerId,
    pos: int,
) -> bool {
    match r {
        Ok((sp, j)) => sp.leading_argc == leading && pair_views(sp.named_arg_argc@) == named
            && sp.handler == h && j == pos,
        Err(_) => false,
    }
}

/// Descending the command tree routes exactly as the direct case analysis
/// of `spec_execute` does.
proof fn lemma_dispatch(specs: CmdSpecs, toks: Seq<Seq<u8>>)
    requires
        is_command_specs(specs),
    ensures
        ({
            let r = spec_find_spec(specs, toks, 0);
            if toks.len() == 0 {
                r == Err::<(CmdSpec, int), _>(CmdError::IncompleteCommand)
            } else {
                let c = spec_fold(toks[0]);
                if c == name_ping() {
                    is_leaf_result(r, 0, no_named(), HandlerId::Ping, 1)
                } else if c == name_echo() {
                    is_leaf_result(r, 1, no_named(), HandlerId::Echo, 1)
                } else if c == name_get() {
                    is_leaf_result(r, 1, no_named(), HandlerId::Get, 1)
                } else if c == name_set() {
                    is_leaf_result(r, 2, set_named(), HandlerId::SetValue, 1)
                } else if c == name_keys() {
                    is_leaf_result(r, 1, no_named(), HandlerId::Keys, 1)
                } else if c == name_config() {
                    if toks.len() < 2 {
                        r == Err::<(CmdSpec, int), _>(CmdError::IncompleteCommand)
                    } else if spec_fold(toks[1]) == name_get() {
                        is_leaf_result(r, 1, no_named(), HandlerId::ConfigGet, 2)
                    } else {
                        r == Err::<(CmdSpec, int), _>(CmdError::UnknownCommand)
                    }
                } else {
                    r == Err::<(CmdSpec, int), _>(CmdError::UnknownCommand)
                }
            }
        }),
{
    if toks.len() == 0 {
    } else {
        let c = spec_fold(toks[0]);
        let es = specs.entries@;
        if c == name_ping() || c == name_echo() || c == name_get() || c == name_set() || c
            == name_keys() {
        } else if c == name_config() {
            match spec_cmd_lookup(es, c) {
                Some(CmdItem::Subtree(sub)) => {
                    if toks.len() < 2 {
                        assert(spec_find_spec(sub, toks, 1) == Err::<(CmdSpec, int), _>(
                            CmdError::IncompleteCommand,
                        ));
                    } else {
                        let c2 = spec_fold(toks[1]);
                        if c2 == name_get() {
                        } else {
                            assert(spec_cmd_lookup(sub.entries@, c2) is None);
                        }
                    }
                },
                _ => {
                    assert(false);
                },
            }
        } else {
            assert(spec_cmd_lookup(es, c) is None);
        }
    }
}

/// Interpret one request against the database at wall-clock `now_ms`:
/// route it through the command tree, parse the arguments, run the
/// handler, and return the reply bytes.  The whole effect is exactly
/// `spec_execute`; on an error the database is untouched.
pub fn execute_command(db: &mut Database, tokens: &Vec<Vec<u8>>, now_ms: u64) -> (r: Result<
    Vec<u8>,
    CmdError,
>)
    requires
        old(db).wf(),
    ensures
        final(db).wf(),
        match r {
            Ok(reply) => spec_execute(old(db)@, views_of(tokens@), now_ms) == Ok::<_, CmdError>(
                (final(db)@, reply@),
            ),
            Err(e) => spec_execute(old(db)@, views_of(tokens@), now_ms) == Err::<
                (DatabaseView, Seq<u8>),
                _,
            >(e) && final(db)@ == old(db)@,
        },
{
    let ghost toks = views_of(tokens@);
    let specs = create_command_specs();
    proof {
        lemma_dispatch(specs, toks);
    }
    let found = find_spec(&specs, tokens, 0);
    let (leaf, idx) = match found {
        Ok(x) => x,
        Err(e) => {
            return Err(e);
        },
    };
    let ghost c = spec_fold(toks[0]);
    let ghost rest = toks.skip(idx as int);
    let parsed = match parse_args(leaf.leading_argc, &leaf.named_arg_argc, tokens, idx) {
        Ok(p) => p,
        Err(e) => {
            return Err(e);
        },
    };
    let ghost a = parsed_view(parsed);
    proof {
        lemma_parse_named_extends(
            pair_views(leaf.named_arg_argc@),
            rest.skip(leaf.leading_argc as int),
            ArgsView { args: rest.take(leaf.leading_argc as int), named: Seq::empty() },
        );
        assert(a.args.len() >= leaf.leading_argc);
        assert(a.args.len() == parsed.args@.len());
    }
    let mut out: Vec<u8> = Vec::new();
    match leaf.handler {
        HandlerId::Ping => {
            handle_ping(&mut out);
            proof {
                assert(Seq::<u8>::empty() + spec_enc_simple(reply_pong()) =~= spec_enc_simple(
                    reply_pong(),
                ));
            }
            Ok(out)
        },
        HandlerId::Echo => {
            handle_echo(&parsed, &mut out);
            proof {
                assert(Seq::<u8>::empty() + spec_enc_bulk(a.args[0]) =~= spec_enc_bulk(a.args[0]));
            }
            Ok(out)
        },
        HandlerId::Get => {
            handle_get(db, &parsed, now_ms, &mut out);
            proof {
                let rep = spec_get_reply(db@.datasets[0], a.args[0], now_ms);
                assert(Seq::<u8>::empty() + rep =~= rep);
            }
            Ok(out)
        },
        HandlerId::SetValue => {
            proof {
                assert(assoc_get(Seq::<(Seq<u8>, Seq<Seq<u8>>)>::empty(), name_px()) is None);
                lemma_parse_named_values(
                    pair_views(leaf.named_arg_argc@),
                    rest.skip(leaf.leading_argc as int),
                    ArgsView { args: rest.take(leaf.leading_argc as int), named: Seq::empty() },
                );
                assert(assoc_get(set_named(), name_px()) == Some(1usize));
            }
            match handle_set(db, &parsed, now_ms, &mut out) {
                Ok(()) => {
                    proof {
                        match spec_set_apply(
                            old(db)@,
                            a.args[0],
                            a.args[1],
                            assoc_get(a.named, name_px()),
                            now_ms,
                        ) {
                            Ok((db2, rep)) => {
                                assert(Seq::<u8>::empty() + rep =~= rep);
                            },
                            Err(_) => {},
                        }
                    }
                    Ok(out)
                },
                Err(e) => Err(e),
            }
        },
        HandlerId::Keys => {
            match handle_keys(db, &parsed, &mut out) {
                Ok(()) => {
                    proof {
                        match spec_keys_apply(db@, a.args[0]) {
                            Ok((_, rep)) => {
                                assert(Seq::<u8>::empty() + rep =~= rep);
                            },
                            Err(_) => {},
                        }
                    }
                    Ok(out)
                },
                Err(e) => Err(e),
            }
        },
        HandlerId::ConfigGet => {
            handle_config_get(db, &parsed, &mut out);
            proof {
                let rep = spec_config_get_reply(db@, a.args[0]);
                assert(Seq::<u8>::empty() + rep =~= rep);
            }
            Ok(out)
        },
    }
}

} // verus!

// The laws of the dispatcher.

verus! {

/// Folding is the identity on a byte string without ASCII uppercase
/// letters.
proof fn lemma_fold_fixed(s: Seq<u8>)
    requires
        forall|i: int| 0 <= i < s.len() ==> !(65 <= #[trigger] s[i] && s[i] <= 90),
    ensures
        spec_fold(s) == s,
{
    assert(spec_fold(s) =~= s);
}

/// The command names differ pairwise.
proof fn lemma_names_distinct()
    ensures
        name_ping() != name_echo(),
        name_ping() != name_get(),
        name_ping() != name_set(),
        name_ping() != name_keys(),
        name_ping() != name_config(),
        name_echo() != name_get(),
        name_echo() != name_set(),
        name_echo() != name_keys(),
        name_echo() != name_config(),
        name_get() != name_set(),
        name_get() != name_keys(),
        name_get() != name_config(),
        name_set() != name_keys(),
        name_set() != name_config(),
        name_keys() != name_config(),
{
    assert(name_ping()[0] == 112 && name_echo()[0] == 101 && name_keys()[0] == 107);
    assert(name_get()[0] == 103 && name_set()[0] == 115);
}

/// Folding fixes the six command names and `px`: they are lowercase.
proof fn lemma_fold_names()
    ensures
        spec_fold(name_ping()) == name_ping(),
        spec_fold(name_echo()) == name_echo(),
        spec_fold(name_get()) == name_get(),
        spec_fold(name_set()) == name_set(),
        spec_fold(name_keys()) == name_keys(),
        spec_fold(name_config()) == name_config(),
        spec_fold(name_px()) == name_px(),
{
    lemma_fold_fixed(name_ping());
    lemma_fold_fixed(name_echo());
    lemma_fold_fixed(name_get());
    lemma_fold_fixed(name_set());
    lemma_fold_fixed(name_keys());
    lemma_fold_fixed(name_config());
    lemma_fold_fixed(name_px());
}

/// Law: a stored value is read back verbatim.  After `SET k v` (without
/// `PX`), the reply is `OK`, any prior expiry of `k` is cleared, and a
/// `GET k` at any later instant returns `v` as a bulk string — also when
/// `k` already held a value or an expiry: the store overwrites.
pub proof fn lemma_set_then_get(db: DatabaseView, k: Seq<u8>, v: Seq<u8>, now1: u64, now2: u64)
    requires
        db.wf(),
    ensures
        ({
            let set_toks = seq![name_set(), k, v];
            let get_toks = seq![name_get(), k];
            match spec_execute(db, set_toks, now1) {
                Ok((db2, rep)) => rep == spec_enc_simple(reply_ok()) && assoc_get(
                    db2.datasets[0].expiry,
                    k,
                ) is None && spec_execute(db2, get_toks, now2) == Ok::<_, CmdError>((
                    db2,
                    spec_enc_bulk(v),
                )),
                Err(_) => false,
            }
        }),
{
    lemma_names_distinct();
    lemma_fold_names();
    let set_toks = seq![name_set(), k, v];
    let get_toks = seq![name_get(), k];
    let rest = set_toks.skip(1);
    assert(rest =~= seq![k, v]);
    assert(rest.take(2) =~= seq![k, v]);
    assert(rest.skip(2) =~= Seq::<Seq<u8>>::empty());
    let acc = ArgsView { args: rest.take(2), named: Seq::empty() };
    assert(spec_parse_named(set_named(), rest.skip(2), acc) == Ok::<_, CmdError>(acc));
    assert(assoc_get(acc.named, name_px()) is None);
    let d0 = db.datasets[0];
    let d2 = spec_set_effect(d0, k, v, None, now1);
    lemma_assoc_set_props(d0.data, k, ValueV::Str(v));
    lemma_assoc_remove_props(d0.expiry, k);
    let db2 = db_with_ds0(db, d2);
    assert(spec_execute(db, set_toks, now1) == Ok::<_, CmdError>((
        db2,
        spec_enc_simple(reply_ok()),
    )));
    assert(db2.datasets[0] == d2);
    // the read
    let grest = get_toks.skip(1);
    assert(grest =~= seq![k]);
    assert(grest.take(1) =~= seq![k]);
    assert(grest.skip(1) =~= Seq::<Seq<u8>>::empty());
    let gacc = ArgsView { args: grest.take(1), named: Seq::empty() };
    assert(spec_parse_named(no_named(), grest.skip(1), gacc) == Ok::<_, CmdError>(gacc));
    assert(!assoc_contains(d2.expiry, k));
    assert(d2.lookup(k, now2) == Some(ValueV::Str(v)));
    assert(spec_get_reply(db2.datasets[0], k, now2) == spec_enc_bulk(v));
}

/// Law: a value stored with `SET k v <px> t` (the name folded to `px` in
/// any case) carries the absolute expiry `now + t`.  A read before that
/// instant returns the value; a read at or after it returns the null bulk
/// string, though the key is still present in storage.
pub proof fn lemma_set_px_then_get(
    db: DatabaseView,
    k: Seq<u8>,
    v: Seq<u8>,
    px_tok: Seq<u8>,
    ms: u64,
    now1: u64,
    now2: u64,
)
    requires
        db.wf(),
        spec_fold(px_tok) == name_px(),
        now1 + ms <= u64::MAX,
    ensures
        ({
            let set_toks = seq![name_set(), k, v, px_tok, spec_dec(ms as nat)];
            let get_toks = seq![name_get(), k];
            match spec_execute(db, set_toks, now1) {
                Ok((db2, rep)) => rep == spec_enc_simple(reply_ok()) && assoc_get(
                    db2.datasets[0].expiry,
                    k,
                ) == Some((now1 + ms) as u64) && assoc_contains(db2.datasets[0].data, k) && (now2
                    < now1 + ms ==> spec_execute(db2, get_toks, now2) == Ok::<_, CmdError>((
                    db2,
                    spec_enc_bulk(v),
                ))) && (now2 >= now1 + ms ==> spec_execute(db2, get_toks, now2) == Ok::<
                    _,
                    CmdError,
                >((db2, spec_enc_null_bulk()))),
                Err(_) => false,
            }
        }),
{
    lemma_names_distinct();
    lemma_fold_names();
    let ms_tok = spec_dec(ms as nat);
    let set_toks = seq![name_set(), k, v, px_tok, ms_tok];
    let get_toks = seq![name_get(), k];
    let rest = set_toks.skip(1);
    assert(rest =~= seq![k, v, px_tok, ms_tok]);
    assert(rest.take(2) =~= seq![k, v]);
    let rem = rest.skip(2);
    assert(rem =~= seq![px_tok, ms_tok]);
    let acc = ArgsView { args: rest.take(2), named: Seq::empty() };
    // the named-argument walk binds px to the one following token
    assert(assoc_get(set_named(), name_px()) == Some(1usize));
    assert(rem.subrange(1, 2) =~= seq![ms_tok]);
    assert(rem.skip(2) =~= Seq::<Seq<u8>>::empty());
    lemma_assoc_set_props(acc.named, name_px(), rem.subrange(1, 2));
    let named2 = spec_assoc_set(acc.named, name_px(), rem.subrange(1, 2));
    let acc2 = ArgsView { args: acc.args, named: named2 };
    assert(spec_parse_named(set_named(), rem, acc) == spec_parse_named(
        set_named(),
        rem.skip(2),
        acc2,
    ));
    assert(spec_parse_named(set_named(), rem.skip(2), acc2) == Ok::<_, CmdError>(acc2));
    assert(assoc_get(acc2.named, name_px()) == Some(seq![ms_tok]));
    crate::num::lemma_dec_round_trip(ms);
    assert(seq![ms_tok][0] == ms_tok);
    let d0 = db.datasets[0];
    let d2 = spec_set_effect(d0, k, v, Some(ms), now1);
    lemma_assoc_set_props(d0.data, k, ValueV::Str(v));
    lemma_assoc_set_props(d0.expiry, k, (now1 + ms) as u64);
    let db2 = db_with_ds0(db, d2);
    assert(spec_execute(db, set_toks, now1) == Ok::<_, CmdError>((
        db2,
        spec_enc_simple(reply_ok()),
    )));
    assert(db2.datasets[0] == d2);
    assert(assoc_get(d2.data, k) == Some(ValueV::Str(v)));
    // the read
    let grest = get_toks.skip(1);
    assert(grest =~= seq![k]);
    assert(grest.take(1) =~= seq![k]);
    assert(grest.skip(1) =~= Seq::<Seq<u8>>::empty());
    let gacc = ArgsView { args: grest.take(1), named: Seq::empty() };
    assert(spec_parse_named(no_named(), grest.skip(1), gacc) == Ok::<_, CmdError>(gacc));
    assert(assoc_contains(d2.expiry, k));
    assert(assoc_get(d2.expiry, k) == Some((now1 + ms) as u64));
    if now2 < now1 + ms {
        assert(d2.lookup(k, now2) == Some(ValueV::Str(v)));
    } else {
        assert(d2.lookup(k, now2) is None);
    }
}

/// Law: the key-listing reply names every key of the store, live or
/// expired, each exactly once.
pub proof fn lemma_keys_lists_every_key(db: DatabaseView)
    requires
        db.wf(),
    ensures
        ({
            let ks = dataset_keys(db.datasets[0]);
            &&& (forall|k: Seq<u8>| #[trigger] ks.contains(k) <==> assoc_contains(
                db.datasets[0].data,
                k,
            ))
            &&& (forall|i: int, j: int| 0 <= i < j < ks.len() ==> ks[i] != ks[j])
            &&& (ks.len() <= i64::MAX ==> spec_keys_apply(db, star_pattern()) == Ok::<
                _,
                CmdError,
            >((db, spec_enc_array_header(ks.len() as int) + spec_enc_bulks(ks))))
        }),
{
    let d = db.datasets[0];
    let ks = dataset_keys(d);
    assert(d.wf());
    crate::database::lemma_all_keys_exact(d, ks);
}

/// Law: command words are matched case-insensitively.  Replacing the
/// command token by any spelling with the same folding leaves the whole
/// outcome unchanged.
pub proof fn lemma_case_folding_command(
    db: DatabaseView,
    toks1: Seq<Seq<u8>>,
    toks2: Seq<Seq<u8>>,
    now: u64,
)
    requires
        toks1.len() == toks2.len(),
        toks1.len() > 0,
        spec_fold(toks2[0]) == spec_fold(toks1[0]),
        toks2.skip(1) == toks1.skip(1),
    ensures
        spec_execute(db, toks2, now) == spec_execute(db, toks1, now),
{
    if toks1.len() >= 2 {
        assert(toks1[1] == toks1.skip(1)[0]);
        assert(toks2[1] == toks2.skip(1)[0]);
        assert(toks1.skip(2) =~= toks1.skip(1).skip(1));
        assert(toks2.skip(2) =~= toks2.skip(1).skip(1));
    }
}

/// Law, continued: the folding applies to subcommand words too.  Under
/// `config`, the subcommand token may change case freely.
pub proof fn lemma_case_folding_subcommand(
    db: DatabaseView,
    toks1: Seq<Seq<u8>>,
    toks2: Seq<Seq<u8>>,
    now: u64,
)
    requires
        toks1.len() == toks2.len(),
        toks1.len() >= 2,
        spec_fold(toks1[0]) == name_config(),
        spec_fold(toks2[0]) == spec_fold(toks1[0]),
        spec_fold(toks2[1]) == spec_fold(toks1[1]),
        toks2.skip(2) == toks1.skip(2),
    ensures
        spec_execute(db, toks2, now) == spec_execute(db, toks1, now),
{
    lemma_names_distinct();
}

} // verus!
