//! Lexical normalization of `/`-separated file paths: `.` steps go, and a `..` step takes
//! back the step before it, without looking at the file system.
use vstd::prelude::*;
use crate::text::chars_of;

verus! {

/// The step `seq!['.', '.']`, which names the parent directory.
pub open spec fn parent_step() -> Seq<char> {
    seq!['.', '.']
}

/// The steps on `stack` after the step `seg` (the text between two separators) is taken:
/// an empty step and `.` change nothing; `..` takes back the last step where that step is
/// not itself `..`, stays at the root of a rooted path, and is kept otherwise; any other
/// step is pushed.
pub open spec fn take_step(stack: Seq<Seq<char>>, seg: Seq<char>, rooted: bool) -> Seq<Seq<char>> {
    if seg.len() == 0 || seg == seq!['.'] {
        stack
    } else if seg == parent_step() {
        if stack.len() > 0 && stack.last() != parent_step() {
            stack.drop_last()
        } else if rooted {
            stack
        } else {
            stack.push(seg)
        }
    } else {
        stack.push(seg)
    }
}

/// The steps taken and the unfinished step after reading `p` from the left.
pub open spec fn scan_steps(p: Seq<char>, rooted: bool) -> (Seq<Seq<char>>, Seq<char>)
    decreases p.len(),
{
    if p.len() == 0 {
        (Seq::empty(), Seq::empty())
    } else {
        let (stack, cur) = scan_steps(p.drop_last(), rooted);
        if p.last() == '/' {
            (take_step(stack, cur, rooted), Seq::empty())
        } else {
            (stack, cur.push(p.last()))
        }
    }
}

/// The path starts at the root.
pub open spec fn is_rooted(p: Seq<char>) -> bool {
    p.len() > 0 && p[0] == '/'
}

/// The steps of `p` once `.` and `..` are resolved.
pub open spec fn normal_steps(p: Seq<char>) -> Seq<Seq<char>> {
    let (stack, cur) = scan_steps(p, is_rooted(p));
    take_step(stack, cur, is_rooted(p))
}

/// The steps written one after another with `/` between them.
pub open spec fn join_steps(steps: Seq<Seq<char>>) -> Seq<char>
    decreases steps.len(),
{
    if steps.len() == 0 {
        Seq::empty()
    } else if steps.len() == 1 {
        steps[0]
    } else {
        join_steps(steps.drop_last()) + seq!['/'] + steps.last()
    }
}

/// The lexical normal form of the path `p`: its resolved steps joined by `/`, after a `/`
/// where `p` is rooted. A relative path that stays where it starts has the empty form;
/// `..` steps that climb above the start of a relative path stay at its front.
pub open spec fn lexical_normal(p: Seq<char>) -> Seq<char> {
    if is_rooted(p) {
        seq!['/'] + join_steps(normal_steps(p))
    } else {
        join_steps(normal_steps(p))
    }
}

/// The texts of a stack of steps.
pub open spec fn step_views(s: Seq<Vec<char>>) -> Seq<Seq<char>> {
    s.map_values(|v: Vec<char>| v@)
}

/// Whether `v` is the step `..`.
fn is_parent_step(v: &Vec<char>) -> (r: bool)
    ensures
        r == (v@ == parent_step()),
{
    if v.len() == 2 && v[0] == '.' && v[1] == '.' {
        assert(v@ =~= parent_step());
        true
    } else {
        false
    }
}

/// Takes the step `seg` on `stack` (see `take_step`).
fn push_step(stack: &mut Vec<Vec<char>>, seg: Vec<char>, rooted: bool)
    ensures
        step_views(final(stack)@) == take_step(step_views(old(stack)@), seg@, rooted),
{
    let ghost before = step_views(stack@);
    let n = seg.len();
    if n == 0 {
        return;
    }
    if n == 1 && seg[0] == '.' {
        assert(seg@ =~= seq!['.']);
        return;
    }
    assert(seg@ != seq!['.']) by {
        if seg@ == seq!['.'] {
            assert(seg@[0] == '.');
        }
    }
    if is_parent_step(&seg) {
        let m = stack.len();
        if m > 0 && !is_parent_step(&stack[m - 1]) {
            stack.pop();
            assert(step_views(stack@) =~= before.drop_last());
        } else if !rooted {
            stack.push(seg);
            assert(step_views(stack@) =~= before.push(seg@));
        }
    } else {
        stack.push(seg);
        assert(step_views(stack@) =~= before.push(seg@));
    }
}

/// The lexical normal form of `path` (see `lexical_normal`).
pub fn normal_form(path: &str) -> (r: Vec<char>)
    ensures
        r@ == lexical_normal(path@),
{
    let p = chars_of(path);
    let rooted = p.len() > 0 && p[0] == '/';
    let mut stack: Vec<Vec<char>> = Vec::new();
    let mut cur: Vec<char> = Vec::new();
    let mut i: usize = 0;
    assert(step_views(stack@) =~= Seq::empty());
    assert(p@.take(0) =~= Seq::empty());
    while i < p.len()
        invariant
            p@ == path@,
            0 <= i <= p@.len(),
            rooted == is_rooted(path@),
            (step_views(stack@), cur@) == scan_steps(p@.take(i as int), rooted),
        decreases p@.len() - i,
    {
        assert(p@.take(i + 1).drop_last() =~= p@.take(i as int));
        assert(p@.take(i + 1).last() == p@[i as int]);
        if p[i] == '/' {
            push_step(&mut stack, cur, rooted);
            cur = Vec::new();
            assert(cur@ =~= Seq::empty());
        } else {
            cur.push(p[i]);
        }
        i = i + 1;
    }
    assert(p@.take(p@.len() as int) =~= p@);
    push_step(&mut stack, cur, rooted);
    let ghost steps = step_views(stack@);
    assert(steps == normal_steps(path@));
    let mut out: Vec<char> = Vec::new();
    if rooted {
        out.push('/');
    }
    let ghost lead = out@;
    assert(steps.take(0) =~= Seq::empty());
    assert(out@ =~= lead + join_steps(steps.take(0)));
    let mut k: usize = 0;
    while k < stack.len()
        invariant
            0 <= k <= stack@.len(),
            steps == step_views(stack@),
            out@ == lead + join_steps(steps.take(k as int)),
        decreases stack@.len() - k,
    {
        let ghost start = out@;
        if k > 0 {
            out.push('/');
        }
        let ghost mid = out@;
        let seg = &stack[k];
        assert(seg@ == steps[k as int]);
        let mut j: usize = 0;
        assert(seg@.take(0) =~= Seq::empty());
        assert(out@ =~= mid + seg@.take(0));
        while j < seg.len()
            invariant
                0 <= j <= seg@.len(),
                out@ == mid + seg@.take(j as int),
            decreases seg@.len() - j,
        {
            out.push(seg[j]);
            assert(out@ =~= mid + seg@.take(j + 1));
            j = j + 1;
        }
        assert(seg@.take(seg@.len() as int) =~= seg@);
        assert(steps.take(k + 1).drop_last() =~= steps.take(k as int));
        assert(steps.take(k + 1).last() == steps[k as int]);
        if k == 0 {
            assert(out@ =~= lead + join_steps(steps.take(k + 1)));
        } else {
            assert(out@ =~= lead + join_steps(steps.take(k + 1)));
        }
        k = k + 1;
    }
    assert(steps.take(stack@.len() as int) =~= steps);
    out
}

} // verus!
