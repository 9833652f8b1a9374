//! Day 23: a network of computers with connections between pairs of them.
//! Part one counts the groups of three computers that are all connected
//! with each other, one of them with a name that begins with `t`; part two
//! names the computers of the largest such group that is found.

use crate::solution::{Answer, Part, Solution, SolvedValue};
use crate::text::{
    chars_of, copy_text, holds_text, join, joined, lines, lines_of, rows, same_text, sort_texts,
    sorted_texts, split_once, split_once_at, starts_with_char, string_of,
};
use vstd::prelude::*;

verus! {

/// A computer with the computers it is connected with, in the order of
/// the connections.
pub struct Party {
    pub name: Vec<char>,
    pub partners: Vec<Vec<char>>,
}

/// The mathematical value of a computer with its connections.
pub struct PartyModel {
    pub name: Seq<char>,
    pub partners: Seq<Seq<char>>,
}

impl View for Party {
    type V = PartyModel;

    open spec fn view(&self) -> PartyModel {
        PartyModel { name: self.name@, partners: rows(self.partners@) }
    }
}

/// The computers of a network, in the order in which they first occur.
pub open spec fn network(parties: Seq<Party>) -> Seq<PartyModel> {
    Seq::new(parties.len(), |i: int| parties[i]@)
}

/// The first index at or after `from` of the computer with a name, or the
/// number of computers.
pub open spec fn party_at(net: Seq<PartyModel>, name: Seq<char>, from: int) -> int
    decreases net.len() - from,
{
    if from < 0 || from >= net.len() {
        net.len() as int
    } else if net[from].name == name {
        from
    } else {
        party_at(net, name, from + 1)
    }
}

/// The network with one more connection from `a` to `b`.
pub open spec fn with_partner(net: Seq<PartyModel>, a: Seq<char>, b: Seq<char>) -> Seq<PartyModel> {
    let at = party_at(net, a, 0);
    if 0 <= at < net.len() {
        net.update(at, PartyModel { name: a, partners: net[at].partners.push(b) })
    } else {
        net.push(PartyModel { name: a, partners: seq![b] })
    }
}

/// The network of the lines `a-b` from `i` on, each a connection in both
/// directions, added to `acc`.
pub open spec fn network_from(lines: Seq<Seq<char>>, i: int, acc: Seq<PartyModel>) -> Option<
    Seq<PartyModel>,
>
    decreases lines.len() - i,
{
    if i < 0 || i >= lines.len() {
        Some(acc)
    } else {
        match split_once(lines[i], "-"@) {
            Some((a, b)) => network_from(lines, i + 1, with_partner(with_partner(acc, a, b), b, a)),
            None => None,
        }
    }
}

/// The network of a puzzle text.
pub open spec fn parse_network(input: Seq<char>) -> Option<Seq<PartyModel>> {
    network_from(lines(input), 0, Seq::empty())
}

#[verifier::loop_isolation(false)]
fn find_party(parties: &Vec<Party>, name: &Vec<char>) -> (r: usize)
    ensures
        r == party_at(network(parties@), name@, 0),
        r <= parties.len(),
        r < parties.len() ==> parties@[r as int].name@ == name@,
{
    let mut at: usize = 0;
    while at < parties.len()
        invariant
            at <= parties.len(),
            party_at(network(parties@), name@, 0) == party_at(network(parties@), name@, at as int),
        decreases parties.len() - at,
    {
        if same_text(&parties[at].name, name) {
            return at;
        }
        at += 1;
    }
    at
}

fn connect(parties: &mut Vec<Party>, a: &Vec<char>, b: &Vec<char>)
    ensures
        network(final(parties)@) == with_partner(network(old(parties)@), a@, b@),
{
    let ghost before = network(parties@);
    let at = find_party(parties, a);
    if at < parties.len() {
        assert(before[at as int] == parties@[at as int]@);
        parties[at].partners.push(copy_text(b));
        assert(network(parties@)[at as int].partners =~= before[at as int].partners.push(b@));
        assert forall|k: int| 0 <= k < before.len() && k != at implies network(parties@)[k]
            == before[k] by {
            assert(parties@[k] == old(parties)@[k]);
        }
    } else {
        let mut partners: Vec<Vec<char>> = Vec::new();
        partners.push(copy_text(b));
        parties.push(Party { name: copy_text(a), partners });
        assert(network(parties@)[before.len() as int].partners =~= seq![b@]);
        assert forall|k: int| 0 <= k < before.len() implies network(parties@)[k] == before[k] by {
            assert(parties@[k] == old(parties)@[k]);
        }
    }
    assert(network(parties@) =~= with_partner(before, a@, b@));
}

/// Reads the network of a puzzle text.
#[verifier::loop_isolation(false)]
pub fn parse_input(input: &Vec<char>) -> (r: Option<Vec<Party>>)
    ensures
        match r {
            Some(parties) => parse_network(input@) == Some(network(parties@)),
            None => parse_network(input@) is None,
        },
{
    let all = lines_of(input);
    let mut parties: Vec<Party> = Vec::new();
    assert(network(parties@) =~= Seq::empty());
    let mut i: usize = 0;
    while i < all.len()
        invariant
            i <= all.len(),
            parse_network(input@) == network_from(lines(input@), i as int, network(parties@)),
        decreases all.len() - i,
    {
        assert(rows(all@)[i as int] == all@[i as int]@);
        match split_once_at(&all[i], "-") {
            Some((a, b)) => {
                connect(&mut parties, &a, &b);
                connect(&mut parties, &b, &a);
            },
            None => {
                return None;
            },
        }
        i += 1;
    }
    Some(parties)
}

/// Whether the network holds a connection from `a` to `b`.
pub open spec fn linked(net: Seq<PartyModel>, a: Seq<char>, b: Seq<char>) -> bool {
    let at = party_at(net, a, 0);
    0 <= at < net.len() && net[at].partners.contains(b)
}

/// Whether each computer of a list is connected with all that come after
/// it in the list.
pub open spec fn pairwise(net: Seq<PartyModel>, partners: Seq<Seq<char>>) -> bool {
    forall|i: int, j: int| 0 <= i < j < partners.len() ==> linked(net, partners[i], partners[j])
}

fn is_linked(parties: &Vec<Party>, a: &Vec<char>, b: &Vec<char>) -> (r: bool)
    ensures
        r == linked(network(parties@), a@, b@),
{
    let at = find_party(parties, a);
    if at < parties.len() {
        assert(network(parties@)[at as int] == parties@[at as int]@);
        holds_text(&parties[at].partners, b)
    } else {
        false
    }
}

/// Whether each computer of a list is connected with all that come after
/// it.
#[verifier::loop_isolation(false)]
pub fn is_pairwise_connected(connections: &Vec<Party>, partners: &Vec<Vec<char>>) -> (r: bool)
    ensures
        r == pairwise(network(connections@), rows(partners@)),
{
    let ghost net = network(connections@);
    let ghost names = rows(partners@);
    let mut i: usize = 0;
    while i < partners.len()
        invariant
            i <= partners.len(),
            forall|a: int, b: int| 0 <= a < b < partners.len() && a < i ==> linked(net, names[a], names[b]),
        decreases partners.len() - i,
    {
        let mut j: usize = i + 1;
        while j < partners.len()
            invariant
                i < j <= partners.len(),
                forall|b: int| i < b < j ==> linked(net, names[i as int], names[b]),
            decreases partners.len() - j,
        {
            assert(names[i as int] == partners@[i as int]@);
            assert(names[j as int] == partners@[j as int]@);
            if !is_linked(connections, &partners[i], &partners[j]) {
                return false;
            }
            j += 1;
        }
        i += 1;
    }
    true
}

/// The groups of a list of groups, each as lists of names.
pub open spec fn groups_of(groups: Seq<Vec<Vec<char>>>) -> Seq<Seq<Seq<char>>> {
    Seq::new(groups.len(), |i: int| rows(groups[i]@))
}

/// A list of groups with one more, unless the list holds it.
pub open spec fn noted(list: Seq<Seq<Seq<char>>>, group: Seq<Seq<char>>) -> Seq<Seq<Seq<char>>> {
    if list.contains(group) {
        list
    } else {
        list.push(group)
    }
}

/// The groups of `size` computers that begin with `start`, go on with a
/// computer connected with the one before, and are all connected with
/// each other; each in the order of a dictionary, and each once.
pub open spec fn groups_from(net: Seq<PartyModel>, size: nat, start: Seq<char>) -> Seq<Seq<Seq<char>>>
    decreases size, 2nat, 0nat,
{
    if size == 0 {
        Seq::empty()
    } else if size == 1 {
        seq![seq![start]]
    } else {
        let at = party_at(net, start, 0);
        if 0 <= at < net.len() {
            groups_over(net, size, start, net[at].partners, 0, Seq::empty())
        } else {
            Seq::empty()
        }
    }
}

/// The groups that go on from `start` with one of the partners from `i`
/// on, noted in `acc`.
pub open spec fn groups_over(
    net: Seq<PartyModel>,
    size: nat,
    start: Seq<char>,
    partners: Seq<Seq<char>>,
    i: int,
    acc: Seq<Seq<Seq<char>>>,
) -> Seq<Seq<Seq<char>>>
    decreases size, 1nat, partners.len() - i,
{
    if i < 0 || i >= partners.len() || size < 2 {
        acc
    } else {
        groups_over(
            net,
            size,
            start,
            partners,
            i + 1,
            groups_with(net, start, groups_from(net, (size - 1) as nat, partners[i]), 0, acc),
        )
    }
}

/// The smaller groups from `k` on with `start` before them, as far as
/// they are all connected with each other, noted in `acc`.
pub open spec fn groups_with(
    net: Seq<PartyModel>,
    start: Seq<char>,
    subs: Seq<Seq<Seq<char>>>,
    k: int,
    acc: Seq<Seq<Seq<char>>>,
) -> Seq<Seq<Seq<char>>>
    decreases subs.len() - k,
{
    if k < 0 || k >= subs.len() {
        acc
    } else {
        let group = seq![start] + subs[k];
        groups_with(
            net,
            start,
            subs,
            k + 1,
            if pairwise(net, group) {
                noted(acc, sorted_texts(group))
            } else {
                acc
            },
        )
    }
}

fn same_group(a: &Vec<Vec<char>>, b: &Vec<Vec<char>>) -> (r: bool)
    ensures
        r == (rows(a@) == rows(b@)),
{
    if a.len() != b.len() {
        return false;
    }
    let mut i: usize = 0;
    while i < a.len()
        invariant
            i <= a.len(),
            a.len() == b.len(),
            forall|k: int| 0 <= k < i ==> rows(a@)[k] == rows(b@)[k],
        decreases a.len() - i,
    {
        assert(rows(a@)[i as int] == a@[i as int]@);
        assert(rows(b@)[i as int] == b@[i as int]@);
        if !same_text(&a[i], &b[i]) {
            return false;
        }
        i += 1;
    }
    assert(rows(a@) =~= rows(b@));
    true
}

#[verifier::loop_isolation(false)]
fn note_group(list: &mut Vec<Vec<Vec<char>>>, group: Vec<Vec<char>>)
    ensures
        groups_of(final(list)@) == noted(groups_of(old(list)@), rows(group@)),
{
    let ghost before = groups_of(list@);
    let mut i: usize = 0;
    while i < list.len()
        invariant
            i <= list.len(),
            list@ == old(list)@,
            forall|k: int| 0 <= k < i ==> before[k] != rows(group@),
        decreases list.len() - i,
    {
        assert(before[i as int] == rows(list@[i as int]@));
        if same_group(&list[i], &group) {
            return ;
        }
        i += 1;
    }
    list.push(group);
    assert(groups_of(list@) =~= before.push(rows(group@)));
}

fn copy_group(group: &Vec<Vec<char>>) -> (r: Vec<Vec<char>>)
    ensures
        rows(r@) == rows(group@),
{
    let mut r: Vec<Vec<char>> = Vec::new();
    let mut i: usize = 0;
    while i < group.len()
        invariant
            i <= group.len(),
            r.len() == i,
            forall|k: int| 0 <= k < i ==> (#[trigger] r@[k])@ == group@[k]@,
        decreases group.len() - i,
    {
        r.push(copy_text(&group[i]));
        i += 1;
    }
    assert(rows(r@) =~= rows(group@));
    r
}

/// The groups of `size` computers that begin with `start`.
#[verifier::loop_isolation(false)]
pub fn build_groups_of_size(connections: &Vec<Party>, size: usize, start: &Vec<char>) -> (groups: Vec<
    Vec<Vec<char>>,
>)
    ensures
        groups_of(groups@) == groups_from(network(connections@), size as nat, start@),
    decreases size,
{
    let ghost net = network(connections@);
    let mut groups: Vec<Vec<Vec<char>>> = Vec::new();
    assert(groups_of(groups@) =~= Seq::empty());
    if size == 0 {
        return groups;
    }
    if size == 1 {
        let mut only: Vec<Vec<char>> = Vec::new();
        only.push(copy_text(start));
        assert(rows(only@) =~= seq![start@]);
        groups.push(only);
        assert(groups_of(groups@) =~= seq![seq![start@]]);
        return groups;
    }
    let at = find_party(connections, start);
    if at >= connections.len() {
        return groups;
    }
    let partners = &connections[at].partners;
    assert(net[at as int] == connections@[at as int]@);
    let mut i: usize = 0;
    while i < partners.len()
        invariant
            i <= partners.len(),
            groups_from(net, size as nat, start@) == groups_over(
                net,
                size as nat,
                start@,
                rows(partners@),
                i as int,
                groups_of(groups@),
            ),
        decreases partners.len() - i,
    {
        assert(rows(partners@)[i as int] == partners@[i as int]@);
        let sub_groups = build_groups_of_size(connections, size - 1, &partners[i]);
        let ghost subs = groups_of(sub_groups@);
        let ghost first = groups_of(groups@);
        let mut k: usize = 0;
        while k < sub_groups.len()
            invariant
                k <= sub_groups.len(),
                groups_with(net, start@, subs, 0, first) == groups_with(
                    net,
                    start@,
                    subs,
                    k as int,
                    groups_of(groups@),
                ),
            decreases sub_groups.len() - k,
        {
            assert(subs[k as int] == rows(sub_groups@[k as int]@));
            let mut group: Vec<Vec<char>> = Vec::new();
            group.push(copy_text(start));
            let mut rest = copy_group(&sub_groups[k]);
            let ghost tail = rows(rest@);
            group.append(&mut rest);
            assert(rows(group@) =~= seq![start@] + tail);
            if is_pairwise_connected(connections, &group) {
                let sorted = sort_texts(&group);
                note_group(&mut groups, sorted);
            }
            k += 1;
        }
        i += 1;
    }
    groups
}

/// The groups of three of the computers from `i` on whose names begin
/// with `t`, noted in `acc`.
pub open spec fn triples_from(net: Seq<PartyModel>, i: int, acc: Seq<Seq<Seq<char>>>) -> Seq<
    Seq<Seq<char>>,
>
    decreases net.len() - i,
{
    if i < 0 || i >= net.len() {
        acc
    } else if net[i].name.len() > 0 && net[i].name[0] == 't' {
        triples_from(net, i + 1, all_noted(acc, groups_from(net, 3, net[i].name), 0))
    } else {
        triples_from(net, i + 1, acc)
    }
}

/// A list of groups with those of another list from `k` on, each unless
/// the list holds it.
pub open spec fn all_noted(list: Seq<Seq<Seq<char>>>, more: Seq<Seq<Seq<char>>>, k: int) -> Seq<
    Seq<Seq<char>>,
>
    decreases more.len() - k,
{
    if k < 0 || k >= more.len() {
        list
    } else {
        all_noted(noted(list, more[k]), more, k + 1)
    }
}

/// The largest group that is found, beginning with `biggest`: for each
/// computer from `i` on, the computer and the first so many of its
/// partners, as long as they are all connected with each other. Of groups
/// of one size the first found stays.
pub open spec fn biggest_from(net: Seq<PartyModel>, i: int, biggest: Option<Seq<Seq<char>>>) -> Option<
    Seq<Seq<char>>,
>
    decreases net.len() - i,
{
    if i < 0 || i >= net.len() {
        biggest
    } else {
        biggest_from(net, i + 1, biggest_with(net, net[i].partners, 0, seq![net[i].name], biggest))
    }
}

/// The largest group that is found while the partners from `k` on join
/// `group`.
pub open spec fn biggest_with(
    net: Seq<PartyModel>,
    partners: Seq<Seq<char>>,
    k: int,
    group: Seq<Seq<char>>,
    biggest: Option<Seq<Seq<char>>>,
) -> Option<Seq<Seq<char>>>
    decreases partners.len() - k,
{
    if k < 0 || k >= partners.len() {
        biggest
    } else {
        let more = group.push(partners[k]);
        let size = match biggest {
            Some(b) => b.len(),
            None => 0,
        };
        biggest_with(
            net,
            partners,
            k + 1,
            more,
            if pairwise(net, more) && more.len() > size {
                Some(more)
            } else {
                biggest
            },
        )
    }
}

/// A group, if there is one, as a list of names.
pub open spec fn shown(group: Option<Vec<Vec<char>>>) -> Option<Seq<Seq<char>>> {
    match group {
        Some(group) => Some(rows(group@)),
        None => None,
    }
}

/// The largest group of computers that is found.
#[verifier::loop_isolation(false)]
pub fn biggest_pairwise_group(connections: &Vec<Party>) -> (r: Option<Vec<Vec<char>>>)
    ensures
        match r {
            Some(group) => biggest_from(network(connections@), 0, None) == Some(rows(group@)),
            None => biggest_from(network(connections@), 0, None) is None,
        },
{
    let ghost net = network(connections@);
    let mut biggest_group: Option<Vec<Vec<char>>> = None;
    let mut i: usize = 0;
    while i < connections.len()
        invariant
            i <= connections.len(),
            biggest_from(net, 0, None) == biggest_from(net, i as int, shown(biggest_group)),
        decreases connections.len() - i,
    {
        let party = &connections[i];
        assert(net[i as int] == party@);
        let mut group: Vec<Vec<char>> = Vec::new();
        group.push(copy_text(&party.name));
        assert(rows(group@) =~= seq![party.name@]);
        let ghost first = shown(biggest_group);
        let mut k: usize = 0;
        while k < party.partners.len()
            invariant
                k <= party.partners.len(),
                biggest_with(net, rows(party.partners@), 0, seq![party.name@], first)
                    == biggest_with(
                    net,
                    rows(party.partners@),
                    k as int,
                    rows(group@),
                    shown(biggest_group),
                ),
            decreases party.partners.len() - k,
        {
            assert(rows(party.partners@)[k as int] == party.partners@[k as int]@);
            let ghost before = rows(group@);
            group.push(copy_text(&party.partners[k]));
            assert(rows(group@) =~= before.push(party.partners@[k as int]@));
            let size = match &biggest_group {
                Some(b) => b.len(),
                None => 0,
            };
            if group.len() > size && is_pairwise_connected(connections, &group) {
                biggest_group = Some(copy_group(&group));
            }
            k += 1;
        }
        i += 1;
    }
    biggest_group
}

/// The answer of a part.
pub open spec fn solve(input: Seq<char>, part: Part) -> Option<Answer> {
    match parse_network(input) {
        Some(net) => match part {
            Part::One => {
                let count = triples_from(net, 0, Seq::empty()).len();
                if count <= usize::MAX {
                    Some(Answer::Number(count as usize))
                } else {
                    None
                }
            },
            Part::Two => match biggest_from(net, 0, None) {
                Some(group) => Some(Answer::Text(joined(sorted_texts(group), ","@))),
                None => None,
            },
        },
        None => None,
    }
}

pub struct Day;

impl Solution for Day {
    open spec fn answer(&self, input: Seq<char>, part: Part) -> Option<Answer> {
        solve(input, part)
    }

    #[verifier::loop_isolation(false)]
    fn part1(&self, input: &str) -> (r: Option<SolvedValue>) {
        let chars = chars_of(input);
        let connections = match parse_input(&chars) {
            Some(connections) => connections,
            None => {
                return None;
            },
        };
        let ghost net = network(connections@);
        let mut t_groups: Vec<Vec<Vec<char>>> = Vec::new();
        assert(groups_of(t_groups@) =~= Seq::empty());
        let mut i: usize = 0;
        while i < connections.len()
            invariant
                i <= connections.len(),
                triples_from(net, 0, Seq::empty()) == triples_from(net, i as int, groups_of(t_groups@)),
            decreases connections.len() - i,
        {
            assert(net[i as int] == connections@[i as int]@);
            if starts_with_char(&connections[i].name, 't') {
                let found = build_groups_of_size(&connections, 3, &connections[i].name);
                let ghost more = groups_of(found@);
                let ghost first = groups_of(t_groups@);
                let mut k: usize = 0;
                while k < found.len()
                    invariant
                        k <= found.len(),
                        all_noted(first, more, 0) == all_noted(groups_of(t_groups@), more, k as int),
                    decreases found.len() - k,
                {
                    assert(more[k as int] == rows(found@[k as int]@));
                    note_group(&mut t_groups, copy_group(&found[k]));
                    k += 1;
                }
            }
            i += 1;
        }
        Some(SolvedValue::Number(t_groups.len()))
    }

    fn part2(&self, input: &str) -> (r: Option<SolvedValue>) {
        let chars = chars_of(input);
        let connections = match parse_input(&chars) {
            Some(connections) => connections,
            None => {
                return None;
            },
        };
        match biggest_pairwise_group(&connections) {
            Some(biggest_group) => {
                let sorted = sort_texts(&biggest_group);
                Some(SolvedValue::Text(string_of(&join(&sorted, ","))))
            },
            None => None,
        }
    }
}

} // verus!
