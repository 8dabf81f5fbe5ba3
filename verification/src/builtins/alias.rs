use vstd::prelude::*;
use crate::parsing::ast::CommandRaw;
use crate::table::{NameTable, texts};
use crate::text::{owned, split_on, split_str, views};

verus! {

/// The first word of an alias's value: what comes before its first space.
pub open spec fn first_word(v: Seq<char>) -> Seq<char> {
    split_on(v, ' ')[0]
}

/// Following aliases from the name `x` reaches, within `n` steps, a name that
/// is no alias.
pub open spec fn chain_ok(m: Map<Seq<char>, Seq<char>>, x: Seq<char>, n: nat) -> bool
    decreases n,
{
    !m.dom().contains(x) || (n > 0 && chain_ok(m, first_word(m[x]), (n - 1) as nat))
}

/// A command after at most `n` alias expansions: while its name is an alias,
/// the name is replaced by the words of the alias's value (split at spaces),
/// the first of which becomes the name and the others go before the
/// arguments.
pub open spec fn expand(m: Map<Seq<char>, Seq<char>>, exe: Seq<char>, args: Seq<Seq<char>>, n: nat) -> (Seq<char>, Seq<Seq<char>>)
    decreases n,
{
    if n == 0 || !m.dom().contains(exe) {
        (exe, args)
    } else {
        let parts = split_on(m[exe], ' ');
        expand(m, parts[0], parts.drop_first() + args, (n - 1) as nat)
    }
}

pub proof fn lemma_split_on_len(s: Seq<char>, c: char)
    ensures
        split_on(s, c).len() >= 1,
    decreases s.len(),
{
    crate::text::lemma_first_index(s, c);
    let k = crate::text::first_index(s, c);
    if k < s.len() {
        lemma_split_on_len(s.skip(k + 1), c);
    }
}

/// Expansion does not depend on how many steps are allowed, once they are
/// enough.
pub proof fn lemma_expand_fuel(m: Map<Seq<char>, Seq<char>>, exe: Seq<char>, args: Seq<Seq<char>>, n1: nat, n2: nat)
    requires
        chain_ok(m, exe, n1),
        chain_ok(m, exe, n2),
    ensures
        expand(m, exe, args, n1) == expand(m, exe, args, n2),
    decreases n1,
{
    if m.dom().contains(exe) {
        let parts = split_on(m[exe], ' ');
        lemma_expand_fuel(m, parts[0], parts.drop_first() + args, (n1 - 1) as nat, (n2 - 1) as nat);
    }
}

/// Expands the aliases of `cmd`'s name (see `expand`), in at most as many
/// steps as there are aliases.
pub fn substitute(cmd: &mut CommandRaw, aliases: &NameTable<String>)
    requires
        exists|n: nat| chain_ok(texts(aliases@), old(cmd).exe@, n),
    ensures
        chain_ok(texts(aliases@), old(cmd).exe@, aliases@.dom().len()),
        final(cmd)@ == expand(texts(aliases@), old(cmd).exe@, old(cmd)@.1, aliases@.dom().len()),
        forall|n: nat| #[trigger] chain_ok(texts(aliases@), old(cmd).exe@, n) ==> final(cmd)@ == expand(texts(aliases@), old(cmd).exe@, old(cmd)@.1, n),
{
    let ghost m = texts(aliases@);
    let ghost n0: nat = choose|n: nat| chain_ok(m, old(cmd).exe@, n);
    let ghost exe0 = cmd.exe@;
    let ghost args0 = cmd@.1;
    let ghost mut fuel: nat = n0;
    loop
        invariant
            m == texts(aliases@),
            chain_ok(m, cmd.exe@, fuel),
            expand(m, exe0, args0, n0) == expand(m, cmd.exe@, cmd@.1, fuel),
        ensures
            cmd@ == expand(m, exe0, args0, n0),
        decreases fuel,
    {
        match aliases.get(cmd.exe.as_str()) {
            None => {
                break;
            },
            Some(res) => {
                let mut parts = split_str(res.as_str(), ' ');
                proof {
                    lemma_split_on_len(res@, ' ');
                }
                let ghost pv = views(parts@);
                let exe = parts.remove(0);
                let ghost rest = parts@;
                let mut args: Vec<String> = Vec::new();
                std::mem::swap(&mut args, &mut cmd.args);
                let ghost old_args = args@;
                parts.append(&mut args);
                proof {
                    assert(views(rest) =~= pv.drop_first());
                    assert(views(parts@) =~= pv.drop_first() + views(old_args));
                }
                cmd.args = parts;
                cmd.exe = exe;
                proof {
                    fuel = (fuel - 1) as nat;
                }
            },
        }
    }
    proof {
        aliases.lemma_finite();
        assert(m.dom() =~= aliases@.dom());
        lemma_chain_bound(m, exe0, n0);
        assert forall|n: nat| #[trigger] chain_ok(m, exe0, n) implies cmd@ == expand(m, exe0, args0, n) by {
            lemma_expand_fuel(m, exe0, args0, n, n0);
        }
    }
}

/// The name reached from `x` after `k` steps, each step going from an alias
/// to the first word of its value.
pub open spec fn follow(m: Map<Seq<char>, Seq<char>>, x: Seq<char>, k: nat) -> Seq<char>
    decreases k,
{
    if k == 0 {
        x
    } else {
        follow(m, first_word(m[x]), (k - 1) as nat)
    }
}

proof fn lemma_follow_add(m: Map<Seq<char>, Seq<char>>, x: Seq<char>, i: nat, t: nat)
    ensures
        follow(m, x, i + t) == follow(m, follow(m, x, i), t),
    decreases i,
{
    if i > 0 {
        lemma_follow_add(m, first_word(m[x]), (i - 1) as nat, t);
        assert((i - 1) as nat + t == (i + t - 1) as nat);
    }
}

/// A chain that ends within `n` steps leaves the aliases at some step up to `n`.
proof fn lemma_chain_leaves(m: Map<Seq<char>, Seq<char>>, x: Seq<char>, n: nat) -> (t: nat)
    requires
        chain_ok(m, x, n),
    ensures
        t <= n,
        !m.dom().contains(follow(m, x, t)),
    decreases n,
{
    if !m.dom().contains(x) {
        0
    } else {
        let t = lemma_chain_leaves(m, first_word(m[x]), (n - 1) as nat);
        assert(follow(m, x, t + 1) == follow(m, first_word(m[x]), t));
        t + 1
    }
}

/// A chain whose first `k` names are aliases and whose `k`-th is not ends in
/// `k` steps.
proof fn lemma_chain_reaches(m: Map<Seq<char>, Seq<char>>, x: Seq<char>, k: nat)
    requires
        forall|t: nat| t < k ==> m.dom().contains(#[trigger] follow(m, x, t)),
        !m.dom().contains(follow(m, x, k)),
    ensures
        chain_ok(m, x, k),
    decreases k,
{
    if k > 0 {
        let y = first_word(m[x]);
        assert(m.dom().contains(follow(m, x, 0)));
        assert forall|t: nat| t < (k - 1) as nat implies m.dom().contains(#[trigger] follow(m, y, t)) by {
            assert(follow(m, x, t + 1) == follow(m, y, t));
        }
        assert(follow(m, x, k) == follow(m, y, (k - 1) as nat));
        lemma_chain_reaches(m, y, (k - 1) as nat);
    }
}

/// A chain that comes back to a name it has passed, through aliases only,
/// stays among the aliases forever.
proof fn lemma_cycle_stays(m: Map<Seq<char>, Seq<char>>, x: Seq<char>, i: nat, j: nat, t: nat)
    requires
        i < j,
        follow(m, x, i) == follow(m, x, j),
        forall|s: nat| s <= j ==> m.dom().contains(#[trigger] follow(m, x, s)),
    ensures
        m.dom().contains(follow(m, x, t)),
    decreases t,
{
    if t > j {
        let back = (t - (j - i)) as nat;
        lemma_cycle_stays(m, x, i, j, back);
        let d = (back - i) as nat;
        lemma_follow_add(m, x, i, d);
        lemma_follow_add(m, x, j, d);
        assert(j + d == t);
    }
}

/// A chain whose name at step `t` is no alias ends in `t` steps.
proof fn lemma_chain_ok_at(m: Map<Seq<char>, Seq<char>>, x: Seq<char>, t: nat)
    requires
        !m.dom().contains(follow(m, x, t)),
    ensures
        chain_ok(m, x, t),
    decreases t,
{
    if t > 0 && m.dom().contains(x) {
        lemma_chain_ok_at(m, first_word(m[x]), (t - 1) as nat);
    }
}

/// A chain that ends within `a` steps ends within any larger number.
proof fn lemma_chain_mono(m: Map<Seq<char>, Seq<char>>, x: Seq<char>, a: nat, b: nat)
    requires
        chain_ok(m, x, a),
        a <= b,
    ensures
        chain_ok(m, x, b),
    decreases a,
{
    if a > 0 && m.dom().contains(x) {
        lemma_chain_mono(m, first_word(m[x]), (a - 1) as nat, (b - 1) as nat);
    }
}

/// A chain that passes as many aliases as there are, plus one, has passed
/// one of them twice, so it never ends.
proof fn lemma_long_chain_cycles(m: Map<Seq<char>, Seq<char>>, x: Seq<char>)
    requires
        m.dom().finite(),
        forall|s: nat| s <= m.dom().len() ==> m.dom().contains(#[trigger] follow(m, x, s)),
    ensures
        forall|n: nat| !chain_ok(m, x, n),
{
    let len = m.dom().len();
    let names = Seq::new((len + 1) as nat, |t: int| follow(m, x, t as nat));
    assert(names.to_set().subset_of(m.dom())) by {
        assert forall|v: Seq<char>| names.to_set().contains(v) implies m.dom().contains(v) by {
            let t = choose|t: int| 0 <= t < names.len() && names[t] == v;
            assert(names[t] == follow(m, x, t as nat));
        }
    }
    vstd::set_lib::lemma_len_subset(names.to_set(), m.dom());
    if names.no_duplicates() {
        names.unique_seq_to_set();
        assert(false);
    }
    let (i, j) = choose|i: int, j: int| 0 <= i < names.len() && 0 <= j < names.len() && i != j && names[i] == names[j];
    let (a, b) = if i < j { (i, j) } else { (j, i) };
    assert(names[a] == follow(m, x, a as nat));
    assert(names[b] == follow(m, x, b as nat));
    assert forall|n: nat| !chain_ok(m, x, n) by {
        if chain_ok(m, x, n) {
            let t = lemma_chain_leaves(m, x, n);
            lemma_cycle_stays(m, x, a as nat, b as nat, t);
        }
    }
}

/// A chain of aliases that ends at all ends within as many steps as there
/// are aliases.
pub proof fn lemma_chain_bound(m: Map<Seq<char>, Seq<char>>, x: Seq<char>, n: nat)
    requires
        m.dom().finite(),
        chain_ok(m, x, n),
    ensures
        chain_ok(m, x, m.dom().len()),
{
    if !chain_ok(m, x, m.dom().len()) {
        assert forall|s: nat| s <= m.dom().len() implies m.dom().contains(#[trigger] follow(m, x, s)) by {
            if !m.dom().contains(follow(m, x, s)) {
                lemma_chain_ok_at(m, x, s);
                lemma_chain_mono(m, x, s, m.dom().len());
            }
        }
        lemma_long_chain_cycles(m, x);
    }
}

/// Whether following the aliases from `name` comes to a name that is no
/// alias, so that expanding it ends; then it ends within as many steps as
/// there are aliases.
pub fn alias_chain_ends(name: &str, aliases: &NameTable<String>) -> (res: bool)
    ensures
        res <==> exists|n: nat| chain_ok(texts(aliases@), name@, n),
        res ==> chain_ok(texts(aliases@), name@, aliases@.dom().len()),
{
    let ghost m = texts(aliases@);
    let len = aliases.entries().len();
    assert(m.dom() =~= aliases@.dom());
    let mut cur = owned(name);
    let mut k: usize = 0;
    loop
        invariant
            m == texts(aliases@),
            m.dom().finite(),
            m.dom().len() == len,
            k <= len,
            cur@ == follow(m, name@, k as nat),
            forall|t: nat| t < k ==> m.dom().contains(#[trigger] follow(m, name@, t)),
        decreases len - k,
    {
        match aliases.get(cur.as_str()) {
            None => {
                proof {
                    lemma_chain_reaches(m, name@, k as nat);
                    lemma_chain_bound(m, name@, k as nat);
                    assert(m.dom() =~= aliases@.dom());
                }
                return true;
            },
            Some(value) => {
                if k == len {
                    proof {
                        assert forall|s: nat| s <= k implies m.dom().contains(#[trigger] follow(m, name@, s)) by {
                            if s < k {
                            } else {
                                assert(s == k);
                            }
                        }
                        lemma_long_chain_cycles(m, name@);
                    }
                    return false;
                }
                let parts = split_str(value.as_str(), ' ');
                proof {
                    lemma_split_on_len(value@, ' ');
                    assert(parts@[0]@ == views(parts@)[0]);
                    assert(value@ == m[cur@]);
                    assert(follow(m, cur@, 1) == follow(m, first_word(m[cur@]), 0));
                    lemma_follow_add(m, name@, k as nat, 1);
                }
                cur = owned(parts[0].as_str());
                k = k + 1;
            },
        }
    }
}

/// What `alias` with the given arguments did to the table.
#[derive(Clone, Copy, Debug, PartialEq, Eq, Structural)]
pub enum AliasOutcome {
    /// No argument: the aliases are to be listed.
    Listed,
    /// One argument: that alias is gone.
    Removed,
    /// Two arguments: the alias is defined.
    Defined,
    /// More arguments: print the usage.
    Usage,
}

/// The `alias` builtin (`alias [name ["value"]]`): with no argument it lists
/// the aliases, with one it removes that alias, with two it defines the alias
/// as the value, as the parser gave it (the parser has already taken the
/// quotes off a quoted value).
pub fn alias(cmd: &CommandRaw, aliases: &mut NameTable<String>) -> (res: AliasOutcome)
    ensures
        cmd.args@.len() == 0 ==> res == AliasOutcome::Listed && final(aliases)@ == old(aliases)@,
        cmd.args@.len() == 1 ==> res == AliasOutcome::Removed && final(aliases)@ == old(aliases)@.remove(cmd.args@[0]@),
        cmd.args@.len() == 2 ==> res == AliasOutcome::Defined && texts(final(aliases)@) == texts(old(aliases)@).insert(
            cmd.args@[0]@,
            cmd.args@[1]@,
        ),
        cmd.args@.len() > 2 ==> res == AliasOutcome::Usage && final(aliases)@ == old(aliases)@,
{
    if cmd.args.len() == 0 {
        AliasOutcome::Listed
    } else if cmd.args.len() == 1 {
        aliases.remove(cmd.args[0].as_str());
        AliasOutcome::Removed
    } else if cmd.args.len() == 2 {
        let value = owned(cmd.args[1].as_str());
        let ghost before = aliases@;
        aliases.insert(cmd.args[0].clone(), value);
        proof {
            assert(texts(aliases@) =~= texts(before).insert(cmd.args@[0]@, cmd.args@[1]@));
        }
        AliasOutcome::Defined
    } else {
        AliasOutcome::Usage
    }
}

} // verus!
