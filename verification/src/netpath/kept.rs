//! Which mount a path is on.
use crate::chars::{stored, words_from};
use crate::netpath::{
    gvfs_in, gvfs_mounts, holding_in, inside, kernel_mounts, mount_in, present, slash_from,
    source_in, under, unescaped_field, without_slashes, Entry,
};
use vstd::prelude::*;

verus! {

/// The mounts a table lists are those of its lines that are shares, every one of
/// them, in order.
pub proof fn law_every_share_in_the_table_is_a_mount(table: Seq<Seq<char>>)
    ensures
        ({
            let shares = table.filter(|line: Seq<char>| mount_in(line) is Some);
            let found = kernel_mounts(table);
            &&& found.len() == shares.len()
            &&& forall|i: int|
                0 <= i < found.len() ==> mount_in(shares[i]) == Some(#[trigger] found[i])
        }),
    decreases table.len(),
{
    reveal(Seq::filter);
    if table.len() > 0 {
        law_every_share_in_the_table_is_a_mount(table.drop_last());
    }
}

/// The same of what the desktop has mounted, each at its own path.
pub proof fn law_every_desktop_share_is_a_mount(entries: Seq<Entry>)
    ensures
        ({
            let shares = entries.filter(|e: Entry| gvfs_in(e.name@) is Some);
            let found = gvfs_mounts(entries);
            &&& found.len() == shares.len()
            &&& forall|i: int|
                0 <= i < found.len() ==> gvfs_in(shares[i].name@) == Some(
                    ((#[trigger] found[i]).host, found[i].share),
                ) && found[i].at == shares[i].path@
        }),
    decreases entries.len(),
{
    reveal(Seq::filter);
    if entries.len() > 0 {
        law_every_desktop_share_is_a_mount(entries.drop_last());
    }
}

/// Whether a line of a mount table says where something a path is under is
/// mounted.
pub open spec fn holds(line: Seq<char>, full: Seq<char>) -> bool {
    words_from(line, 0).len() >= 3 && under(full, unescaped_field(words_from(line, 0)[1]))
}

/// How long the path is that a line mounts at.
pub open spec fn depth(line: Seq<char>) -> nat {
    stored(unescaped_field(words_from(line, 0)[1])).len()
}

/// What holds a path is the deepest of the mounts it is under, and the first of
/// those; it is on none exactly where it is under none.
pub proof fn law_the_deepest_mount_holds_a_path(table: Seq<Seq<char>>, full: Seq<char>, k: int)
    requires
        0 <= k < table.len(),
    ensures
        match holding_in(table, full) {
            Some((len, kind)) => (exists|i: int|
                0 <= i < table.len() && holds(#[trigger] table[i], full) && depth(table[i]) == len
                    && words_from(table[i], 0)[2] == kind) && (holds(table[k], full) ==> depth(
                table[k],
            ) <= len),
            None => !holds(table[k], full),
        },
    decreases table.len(),
{
    let less = table.drop_last();
    let last = table.len() - 1;
    assert(table[last] == table.last());
    if less.len() > 0 {
        let j = if k < less.len() {
            k
        } else {
            0
        };
        law_the_deepest_mount_holds_a_path(less, full, j);
        assert(less[j] == table[j]);
        if holding_in(table, full) == holding_in(less, full) {
            if let Some((len, kind)) = holding_in(less, full) {
                let i = choose|i: int|
                    0 <= i < less.len() && holds(#[trigger] less[i], full) && depth(less[i]) == len
                        && words_from(less[i], 0)[2] == kind;
                assert(table[i] == less[i]);
            }
        }
    } else {
        assert(less =~= Seq::empty());
    }
    if holds(table[last], full) && holding_in(table, full) != holding_in(less, full) {
        assert(depth(table[last]) == (holding_in(table, full)->0).0);
    }
}

/// A path inside a mount is the mount's, a slash and the rest, with no slash
/// doubled; the mount's own where there is no rest.
pub proof fn law_a_path_inside_a_mount(at: Seq<char>, rest: Seq<char>)
    ensures
        rest.len() == 0 ==> inside(at, rest) == at,
        at.len() > 0 && at.last() != '/' && rest.len() > 0 && rest[0] != '/' ==> inside(at, rest)
            == at.push('/') + rest,
        at.len() > 0 && at.last() == '/' && rest.len() > 0 && rest[0] != '/' ==> inside(at, rest)
            == at + rest,
        rest.len() > 0 && rest[0] == '/' ==> inside(at, rest) == rest,
{
    assert(at.push('/') + rest =~= at + seq!['/'] + rest);
}

/// The parts of a path are those with something in them, in order.
pub proof fn law_empty_parts_are_passed_over(parts: Seq<Seq<char>>)
    ensures
        present(parts) == parts.filter(|p: Seq<char>| p.len() > 0),
    decreases parts.len(),
{
    reveal(Seq::filter);
    if parts.len() > 0 {
        law_empty_parts_are_passed_over(parts.drop_last());
    }
}

/// What is mounted from is a host and a share of it: two slashes of either
/// kind, the host up to the next, and the share without the slashes it ends in.
pub proof fn law_a_source_is_a_host_and_a_share(host: Seq<char>, share: Seq<char>, c: char, d: char)
    requires
        c == '/' || c == '\\',
        d == '/' || d == '\\',
        host.len() > 0,
        share.len() > 0,
        forall|k: int| 0 <= k < host.len() ==> host[k] != '/' && host[k] != '\\',
        share.last() != '/' && share.last() != '\\',
    ensures
        source_in(seq![c, c] + host + seq![d] + share) == Some((host, share)),
        source_in(seq![c, c] + host + seq![d] + share + seq![d]) == Some((host, share)),
{
    let plain = seq![c, c] + host + seq![d] + share;
    let ended = plain + seq![d];
    lemma_source(plain, host, share, c, d);
    lemma_source(ended, host, share.push(d), c, d);
    assert(without_slashes(share) == share);
    assert(share.push(d).drop_last() =~= share);
}

proof fn lemma_source(source: Seq<char>, host: Seq<char>, tail: Seq<char>, c: char, d: char)
    requires
        c == '/' || c == '\\',
        d == '/' || d == '\\',
        host.len() > 0,
        tail.len() > 0,
        forall|k: int| 0 <= k < host.len() ==> host[k] != '/' && host[k] != '\\',
        source =~= seq![c, c] + host + seq![d] + tail,
    ensures
        source_in(source) == (if without_slashes(tail).len() == 0 {
            None
        } else {
            Some((host, without_slashes(tail)))
        }),
{
    let rest = source.skip(2);
    assert(rest =~= host + seq![d] + tail);
    lemma_slash(rest, host.len() as int, 0);
    assert(rest.take(host.len() as int) =~= host);
    assert(rest.skip(host.len() as int + 1) =~= tail);
    assert(source.take(2) =~= seq![c, c]);
    assert(source.subrange(0, 2) =~= seq![c, c]);
    assert(crate::chars::opens_with(source, seq![c, c]));
}

proof fn lemma_slash(s: Seq<char>, at: int, i: int)
    requires
        0 <= i <= at < s.len(),
        s[at] == '/' || s[at] == '\\',
        forall|k: int| 0 <= k < at ==> s[k] != '/' && s[k] != '\\',
    ensures
        slash_from(s, i) == at,
    decreases at - i,
{
    if i < at {
        lemma_slash(s, at, i + 1);
    }
}

} // verus!
