//! Turn restrictions.
use vstd::prelude::*;
use vstd::string::StrSliceExecFns;

verus! {

/// What a turn restriction does with the turns from one road to another.
#[derive(Debug, Clone, Copy, PartialEq, Eq, Hash, Structural)]
pub enum RestrictionType {
    BanTurns,
    OnlyAllowTurns,
}

/// A `" @ "` starts at the `i`th character.
pub open spec fn separator_at(s: Seq<char>, i: int) -> bool {
    0 <= i && i + 3 <= s.len() && s[i] == ' ' && s[i + 1] == '@' && s[i + 2] == ' '
}

/// The first `" @ "` starts at the `i`th character.
pub open spec fn first_separator_at(s: Seq<char>, i: int) -> bool {
    separator_at(s, i) && forall|j: int| 0 <= j < i ==> !separator_at(s, j)
}

/// What stands before the first `" @ "`: the restriction without the times at which it holds,
/// such as `" @ (Mo-Fr 06:00-09:00, 15:00-18:30)"`.
pub open spec fn without_times(s: Seq<char>) -> Seq<char> {
    if exists|i: int| first_separator_at(s, i) {
        s.take(choose|i: int| first_separator_at(s, i))
    } else {
        s
    }
}

/// The kinds of restriction that ban turns.
pub open spec fn bans(kind: Seq<char>) -> bool {
    ||| kind == "no_left_turn"@
    ||| kind == "no_right_turn"@
    ||| kind == "no_straight_on"@
    ||| kind == "no_u_turn"@
    ||| kind == "no_anything"@
}

/// The kinds of restriction that allow nothing but some turns.
pub open spec fn only_allows(kind: Seq<char>) -> bool {
    ||| kind == "only_left_turn"@
    ||| kind == "only_right_turn"@
    ||| kind == "only_straight_on"@
}

/// What a restriction of a known kind does.
pub open spec fn restriction_type(s: Seq<char>) -> Option<RestrictionType> {
    let kind = without_times(s);
    if bans(kind) {
        Some(RestrictionType::BanTurns)
    } else if only_allows(kind) {
        Some(RestrictionType::OnlyAllowTurns)
    } else {
        None
    }
}

proof fn lemma_first_separator(s: Seq<char>, i: int)
    requires
        first_separator_at(s, i),
    ensures
        without_times(s) == s.take(i),
{
    let j = choose|j: int| first_separator_at(s, j);
    assert(first_separator_at(s, j));
    if j < i {
        assert(!separator_at(s, j));
    }
    if i < j {
        assert(!separator_at(s, i));
    }
}

fn strip_times(s: &str) -> (kind: String)
    ensures
        kind@ == without_times(s@),
{
    let len: usize = s.unicode_len();
    let mut i: usize = 0;
    while i < len && len - i >= 3
        invariant
            i <= len == s@.len(),
            forall|j: int| 0 <= j < i ==> !separator_at(s@, j),
        decreases len - i,
    {
        if s.get_char(i) == ' ' && s.get_char(i + 1) == '@' && s.get_char(i + 2) == ' ' {
            proof {
                lemma_first_separator(s@, i as int);
                assert(s@.subrange(0, i as int) =~= s@.take(i as int));
            }
            return s.substring_char(0, i).to_owned();
        }
        i += 1;
    }
    s.to_owned()
}

fn reads(kind: &String, text: &str) -> (r: bool)
    ensures
        r == (kind@ == text@),
{
    *kind == text.to_owned()
}

impl RestrictionType {
    /// What a restriction does, if it is of a known kind.
    pub fn recognize(restriction: &str) -> (r: Option<RestrictionType>)
        ensures
            r == restriction_type(restriction@),
            ({
                // Nothing but the kind, or the kind and after " @ " the times.
                let starts = |kind: Seq<char>|
                    restriction@ == kind || (kind + " @ "@).is_prefix_of(restriction@);
                let ban = {
                    ||| starts("no_left_turn"@)
                    ||| starts("no_right_turn"@)
                    ||| starts("no_straight_on"@)
                    ||| starts("no_u_turn"@)
                    ||| starts("no_anything"@)
                };
                let only = {
                    ||| starts("only_left_turn"@)
                    ||| starts("only_right_turn"@)
                    ||| starts("only_straight_on"@)
                };
                &&& r == Some(RestrictionType::BanTurns) <==> ban
                &&& r == Some(RestrictionType::OnlyAllowTurns) <==> only
                &&& r is None <==> !ban && !only
            }),
    {
        proof {
            law_known_kinds(restriction@);
        }
        let kind: String = strip_times(restriction);
        if reads(&kind, "no_left_turn") || reads(&kind, "no_right_turn") || reads(
            &kind,
            "no_straight_on",
        ) || reads(&kind, "no_u_turn") || reads(&kind, "no_anything") {
            Some(RestrictionType::BanTurns)
        } else if reads(&kind, "only_left_turn") || reads(&kind, "only_right_turn") || reads(
            &kind,
            "only_straight_on",
        ) {
            Some(RestrictionType::OnlyAllowTurns)
        } else {
            None
        }
    }

    /// What a restriction of a known kind does. Between two roads there is only one category of
    /// turn, so which turn is meant is ignored, and so are the times at which it holds.
    pub fn new(restriction: &str) -> (r: RestrictionType)
        requires
            restriction_type(restriction@) is Some,
        ensures
            Some(r) == restriction_type(restriction@),
            r == RestrictionType::BanTurns <==> {
                let starts = |kind: Seq<char>|
                    restriction@ == kind || (kind + " @ "@).is_prefix_of(restriction@);
                ||| starts("no_left_turn"@)
                ||| starts("no_right_turn"@)
                ||| starts("no_straight_on"@)
                ||| starts("no_u_turn"@)
                ||| starts("no_anything"@)
            },
    {
        RestrictionType::recognize(restriction).unwrap()
    }
}

/// Five kinds of restriction ban turns and three allow nothing but some turns, with or without
/// times after them. No other text is a restriction.
pub proof fn law_known_kinds(s: Seq<char>)
    ensures
        ({
            // Nothing but the kind, or the kind and after " @ " the times.
            let starts = |kind: Seq<char>| s == kind || (kind + " @ "@).is_prefix_of(s);
            let ban = {
                ||| starts("no_left_turn"@)
                ||| starts("no_right_turn"@)
                ||| starts("no_straight_on"@)
                ||| starts("no_u_turn"@)
                ||| starts("no_anything"@)
            };
            let only = {
                ||| starts("only_left_turn"@)
                ||| starts("only_right_turn"@)
                ||| starts("only_straight_on"@)
            };
            &&& restriction_type(s) == Some(RestrictionType::BanTurns) <==> ban
            &&& restriction_type(s) == Some(RestrictionType::OnlyAllowTurns) <==> only
            &&& restriction_type(s) is None <==> !ban && !only
        }),
{
    lemma_known_kind(s, "no_left_turn"@);
    lemma_known_kind(s, "no_right_turn"@);
    lemma_known_kind(s, "no_straight_on"@);
    lemma_known_kind(s, "no_u_turn"@);
    lemma_known_kind(s, "no_anything"@);
    lemma_known_kind(s, "only_left_turn"@);
    lemma_known_kind(s, "only_right_turn"@);
    lemma_known_kind(s, "only_straight_on"@);
    reveal_strlit("no_left_turn");
    reveal_strlit("no_right_turn");
    reveal_strlit("no_straight_on");
    reveal_strlit("no_u_turn");
    reveal_strlit("no_anything");
    reveal_strlit("only_left_turn");
    reveal_strlit("only_right_turn");
    reveal_strlit("only_straight_on");
    let kind = without_times(s);
    assert(bans(kind) ==> kind[0] == 'n');
    assert(only_allows(kind) ==> kind[0] == 'o');
}

/// The text is of the kind where it is just that, or that and times.
proof fn lemma_known_kind(s: Seq<char>, kind: Seq<char>)
    requires
        bans(kind) || only_allows(kind),
    ensures
        without_times(s) == kind <==> s == kind || (kind + " @ "@).is_prefix_of(s),
{
    reveal_strlit("no_left_turn");
    reveal_strlit("no_right_turn");
    reveal_strlit("no_straight_on");
    reveal_strlit("no_u_turn");
    reveal_strlit("no_anything");
    reveal_strlit("only_left_turn");
    reveal_strlit("only_right_turn");
    reveal_strlit("only_straight_on");
    reveal_strlit(" @ ");
    let n = kind.len() as int;
    assert forall|j: int| 0 <= j < kind.len() implies kind[j] != '@' by {}
    let whole = kind + " @ "@;
    if whole.is_prefix_of(s) {
        assert(s.take(whole.len() as int) =~= whole);
        assert forall|j: int| 0 <= j < whole.len() implies s[j] == #[trigger] whole[j] by {
            assert(s.take(whole.len() as int)[j] == s[j]);
        }
        assert forall|j: int| 0 <= j < n implies !separator_at(s, j) by {
            assert(s[j + 1] == whole[j + 1]);
        }
        assert(s[n] == whole[n] && s[n + 1] == whole[n + 1] && s[n + 2] == whole[n + 2]);
        assert(separator_at(s, n));
        lemma_first_separator(s, n);
        assert(s.take(n) =~= kind);
    }
    if s == kind {
        assert forall|j: int| !first_separator_at(kind, j) by {
            if separator_at(kind, j) {
                assert(kind[j + 1] != '@');
            }
        }
    }
    if without_times(s) == kind && s != kind {
        let i = choose|i: int| first_separator_at(s, i);
        assert(first_separator_at(s, i));
        assert(s.take(i).len() == i);
        assert(whole =~= s.take(i + 3)) by {
            assert forall|j: int| 0 <= j < i + 3 implies whole[j] == s[j] by {
                if j < i {
                    assert(s.take(i)[j] == s[j]);
                }
            }
        }
        assert(whole.is_prefix_of(s));
    }
}

/// Times after a known kind of restriction do not change what it does.
pub proof fn law_times_ignored(kind: Seq<char>, times: Seq<char>)
    requires
        bans(kind) || only_allows(kind),
    ensures
        restriction_type(kind + " @ "@ + times) == restriction_type(kind),
        restriction_type(kind) is Some,
{
    reveal_strlit("no_left_turn");
    reveal_strlit("no_right_turn");
    reveal_strlit("no_straight_on");
    reveal_strlit("no_u_turn");
    reveal_strlit("no_anything");
    reveal_strlit("only_left_turn");
    reveal_strlit("only_right_turn");
    reveal_strlit("only_straight_on");
    reveal_strlit(" @ ");
    assert forall|j: int| 0 <= j < kind.len() implies kind[j] != '@' by {}
    let s = kind + " @ "@ + times;
    assert forall|j: int| 0 <= j < kind.len() implies !separator_at(s, j) by {
        if j + 1 < kind.len() {
            assert(s[j + 1] == kind[j + 1]);
        } else {
            assert(s[j + 1] == ' ');
        }
    }
    assert(separator_at(s, kind.len() as int));
    lemma_first_separator(s, kind.len() as int);
    assert(s.take(kind.len() as int) =~= kind);
    assert forall|j: int| !first_separator_at(kind, j) by {
        if separator_at(kind, j) {
            assert(kind[j + 1] != '@');
        }
    }
}

} // verus!
