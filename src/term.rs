use vstd::prelude::*;

verus! {

/// A function symbol applied to arguments, such as `f(x, g(y))`.
#[derive(Debug, PartialEq, Eq, Hash, PartialOrd, Ord)]
pub struct Function {
    /// The name of the function.
    pub symbol: u64,
    /// The arguments supplied to the function.
    pub arguments: Vec<Term>,
}

/// An application that can also be expanded through an alias definition.
#[derive(Debug, PartialEq, Eq, Hash, PartialOrd, Ord)]
pub struct Normalizable {
    /// The alias symbol.
    pub symbol: u64,
    /// The arguments supplied to the alias.
    pub arguments: Vec<Term>,
}

/// A term used in equalities.
#[derive(Debug, PartialEq, Eq, Hash, PartialOrd, Ord)]
pub enum Term {
    Literal(u64),
    Function(Function),
    Normalizable(Normalizable),
}

/// The mathematical value of a term.
pub enum TermView {
    Atomic(u64),
    Applied(u64, Seq<TermView>),
    Expandable(u64, Seq<TermView>),
}

pub open spec fn views_of(args: Seq<Term>) -> Seq<TermView>
    decreases args,
{
    if args.len() == 0 {
        Seq::empty()
    } else {
        seq![args[0].view()] + views_of(args.subrange(1, args.len() as int))
    }
}

impl Term {
    pub open spec fn view(&self) -> TermView
        decreases self,
    {
        match self {
            Term::Literal(a) => TermView::Atomic(*a),
            Term::Function(f) => TermView::Applied(f.symbol, views_of(f.arguments@)),
            Term::Normalizable(n) => TermView::Expandable(n.symbol, views_of(n.arguments@)),
        }
    }
}


/// Each argument's view stands at its own position.
pub broadcast proof fn lemma_views_of(args: Seq<Term>)
    ensures
        #[trigger] views_of(args).len() == args.len(),
        forall|i: int| 0 <= i < args.len() ==> #[trigger] views_of(args)[i] == args[i]@,
    decreases args.len(),
{
    if args.len() > 0 {
        lemma_views_of(args.subrange(1, args.len() as int));
    }
}

/// Three-way comparison of two atoms: negative, zero or positive.
pub open spec fn compare_atoms(x: u64, y: u64) -> int {
    if x < y {
        -1
    } else if x == y {
        0
    } else {
        1
    }
}

/// Position of a shape in the order of shapes.
pub open spec fn shape_rank(t: TermView) -> int {
    match t {
        TermView::Atomic(_) => 0,
        TermView::Applied(_, _) => 1,
        TermView::Expandable(_, _) => 2,
    }
}

/// The total order on terms: by shape, then by symbol, then by arguments,
/// compared lexicographically with a shorter prefix first.
pub open spec fn compare_views(a: TermView, b: TermView) -> int
    decreases a,
{
    match (a, b) {
        (TermView::Atomic(x), TermView::Atomic(y)) => compare_atoms(x, y),
        (TermView::Applied(x, xs), TermView::Applied(y, ys)) => if x != y {
            compare_atoms(x, y)
        } else {
            compare_seqs(xs, ys)
        },
        (TermView::Expandable(x, xs), TermView::Expandable(y, ys)) => if x != y {
            compare_atoms(x, y)
        } else {
            compare_seqs(xs, ys)
        },
        _ => if shape_rank(a) < shape_rank(b) {
            -1
        } else {
            1
        },
    }
}

/// Lexicographic comparison of two argument lists.
pub open spec fn compare_seqs(xs: Seq<TermView>, ys: Seq<TermView>) -> int
    decreases xs,
{
    if xs.len() == 0 {
        if ys.len() == 0 {
            0
        } else {
            -1
        }
    } else if ys.len() == 0 {
        1
    } else {
        let c = compare_views(xs[0], ys[0]);
        if c != 0 {
            c
        } else {
            compare_seqs(xs.subrange(1, xs.len() as int), ys.subrange(1, ys.len() as int))
        }
    }
}

/// The order is antisymmetric, and only equal terms compare as equal.
pub proof fn lemma_compare_views(a: TermView, b: TermView)
    ensures
        compare_views(a, b) == -compare_views(b, a),
        -1 <= compare_views(a, b) <= 1,
        (compare_views(a, b) == 0) == (a == b),
    decreases a,
{
    match (a, b) {
        (TermView::Applied(x, xs), TermView::Applied(y, ys)) => {
            if x == y {
                lemma_compare_seqs(xs, ys);
            }
        },
        (TermView::Expandable(x, xs), TermView::Expandable(y, ys)) => {
            if x == y {
                lemma_compare_seqs(xs, ys);
            }
        },
        _ => {},
    }
}

/// The lexicographic order on argument lists has the same three properties.
pub proof fn lemma_compare_seqs(xs: Seq<TermView>, ys: Seq<TermView>)
    ensures
        compare_seqs(xs, ys) == -compare_seqs(ys, xs),
        -1 <= compare_seqs(xs, ys) <= 1,
        (compare_seqs(xs, ys) == 0) == (xs == ys),
    decreases xs,
{
    if xs.len() > 0 && ys.len() > 0 {
        let xr = xs.subrange(1, xs.len() as int);
        let yr = ys.subrange(1, ys.len() as int);
        lemma_compare_views(xs[0], ys[0]);
        lemma_compare_seqs(xr, yr);
        if xs[0] == ys[0] && xr == yr {
            assert(xs =~= seq![xs[0]] + xr);
            assert(ys =~= seq![ys[0]] + yr);
        }
        if xs == ys {
            assert(xr =~= yr);
        }
    } else if xs.len() == 0 && ys.len() == 0 {
        assert(xs =~= ys);
    }
}

/// The order is transitive.
pub proof fn lemma_compare_transitive(a: TermView, b: TermView, c: TermView)
    requires
        compare_views(a, b) < 0,
        compare_views(b, c) < 0,
    ensures
        compare_views(a, c) < 0,
    decreases a,
{
    match (a, b, c) {
        (TermView::Applied(x, xs), TermView::Applied(y, ys), TermView::Applied(z, zs)) => {
            if x == y && y == z {
                lemma_compare_seqs_transitive(xs, ys, zs);
            }
        },
        (
            TermView::Expandable(x, xs),
            TermView::Expandable(y, ys),
            TermView::Expandable(z, zs),
        ) => {
            if x == y && y == z {
                lemma_compare_seqs_transitive(xs, ys, zs);
            }
        },
        _ => {},
    }
}

/// The lexicographic order on argument lists is transitive.
pub proof fn lemma_compare_seqs_transitive(xs: Seq<TermView>, ys: Seq<TermView>, zs: Seq<TermView>)
    requires
        compare_seqs(xs, ys) < 0,
        compare_seqs(ys, zs) < 0,
    ensures
        compare_seqs(xs, zs) < 0,
    decreases xs,
{
    if xs.len() > 0 && ys.len() > 0 && zs.len() > 0 {
        let xr = xs.subrange(1, xs.len() as int);
        let yr = ys.subrange(1, ys.len() as int);
        let zr = zs.subrange(1, zs.len() as int);
        lemma_compare_views(xs[0], ys[0]);
        lemma_compare_views(ys[0], zs[0]);
        lemma_compare_views(xs[0], zs[0]);
        if compare_views(xs[0], ys[0]) < 0 && compare_views(ys[0], zs[0]) < 0 {
            lemma_compare_transitive(xs[0], ys[0], zs[0]);
        } else if compare_views(xs[0], ys[0]) == 0 && compare_views(ys[0], zs[0]) == 0 {
            lemma_compare_seqs_transitive(xr, yr, zr);
        }
    }
}

impl Term {
    /// A copy of the term, node by node.
    pub fn copy(&self) -> (r: Term)
        ensures
            r@ == self@,
        decreases self,
    {
        match self {
            Term::Literal(a) => Term::Literal(*a),
            Term::Function(f) => Term::Function(
                Function { symbol: f.symbol, arguments: copy_arguments(&f.arguments) },
            ),
            Term::Normalizable(n) => Term::Normalizable(
                Normalizable { symbol: n.symbol, arguments: copy_arguments(&n.arguments) },
            ),
        }
    }

    /// Whether two terms are the same value.
    pub fn same(&self, other: &Term) -> (r: bool)
        ensures
            r == (self@ == other@),
        decreases self,
    {
        match (self, other) {
            (Term::Literal(x), Term::Literal(y)) => *x == *y,
            (Term::Function(f), Term::Function(g)) => f.symbol == g.symbol && same_arguments(
                &f.arguments,
                &g.arguments,
            ),
            (Term::Normalizable(f), Term::Normalizable(g)) => f.symbol == g.symbol
                && same_arguments(&f.arguments, &g.arguments),
            _ => false,
        }
    }

    /// Three-way comparison in the order of `compare_views`.
    pub fn compare(&self, other: &Term) -> (r: i8)
        ensures
            r as int == compare_views(self@, other@),
        decreases self,
    {
        match (self, other) {
            (Term::Literal(x), Term::Literal(y)) => compare_symbols(*x, *y),
            (Term::Function(f), Term::Function(g)) => if f.symbol != g.symbol {
                compare_symbols(f.symbol, g.symbol)
            } else {
                compare_arguments(&f.arguments, &g.arguments)
            },
            (Term::Normalizable(f), Term::Normalizable(g)) => if f.symbol != g.symbol {
                compare_symbols(f.symbol, g.symbol)
            } else {
                compare_arguments(&f.arguments, &g.arguments)
            },
            (Term::Literal(_), _) => -1,
            (Term::Normalizable(_), _) => 1,
            (Term::Function(_), Term::Literal(_)) => 1,
            (Term::Function(_), Term::Normalizable(_)) => -1,
        }
    }
}

fn compare_symbols(x: u64, y: u64) -> (r: i8)
    ensures
        r as int == compare_atoms(x, y),
{
    if x < y {
        -1
    } else if x == y {
        0
    } else {
        1
    }
}

fn copy_arguments(args: &Vec<Term>) -> (r: Vec<Term>)
    ensures
        views_of(r@) == views_of(args@),
    decreases args,
{
    broadcast use lemma_views_of;

    let mut r: Vec<Term> = Vec::new();
    let mut i: usize = 0;
    while i < args.len()
        invariant
            i <= args.len(),
            r@.len() == i,
            forall|j: int| 0 <= j < i ==> #[trigger] r@[j]@ == args@[j]@,
        decreases args.len() - i,
    {
        assert(decreases_to!(args => args@[i as int]));
        r.push(args[i].copy());
        i += 1;
    }
    assert(views_of(r@) =~= views_of(args@));
    r
}

fn same_arguments(xs: &Vec<Term>, ys: &Vec<Term>) -> (r: bool)
    ensures
        r == (views_of(xs@) == views_of(ys@)),
    decreases xs,
{
    broadcast use lemma_views_of;

    proof {
        lemma_views_of(xs@);
        lemma_views_of(ys@);
    }
    if xs.len() != ys.len() {
        return false;
    }
    let mut i: usize = 0;
    while i < xs.len()
        invariant
            i <= xs.len(),
            xs.len() == ys.len(),
            views_of(xs@).len() == xs.len(),
            views_of(ys@).len() == ys.len(),
            forall|j: int| 0 <= j < xs.len() ==> #[trigger] views_of(xs@)[j] == xs@[j]@,
            forall|j: int| 0 <= j < ys.len() ==> #[trigger] views_of(ys@)[j] == ys@[j]@,
            forall|j: int| 0 <= j < i ==> #[trigger] xs@[j]@ == ys@[j]@,
        decreases xs.len() - i,
    {
        assert(decreases_to!(xs => xs@[i as int]));
        if !xs[i].same(&ys[i]) {
            assert(views_of(xs@)[i as int] != views_of(ys@)[i as int]);
            return false;
        }
        i += 1;
    }
    assert(views_of(xs@) =~= views_of(ys@));
    true
}

fn compare_arguments(xs: &Vec<Term>, ys: &Vec<Term>) -> (r: i8)
    ensures
        r as int == compare_seqs(views_of(xs@), views_of(ys@)),
    decreases xs,
{
    broadcast use lemma_views_of;

    let ghost vx = views_of(xs@);
    let ghost vy = views_of(ys@);
    proof {
        lemma_views_of(xs@);
        lemma_views_of(ys@);
        assert(vx.subrange(0, vx.len() as int) =~= vx);
        assert(vy.subrange(0, vy.len() as int) =~= vy);
    }
    let mut i: usize = 0;
    while i < xs.len() && i < ys.len()
        invariant
            i <= xs.len(),
            i <= ys.len(),
            vx == views_of(xs@),
            vy == views_of(ys@),
            vx.len() == xs.len(),
            vy.len() == ys.len(),
            forall|j: int| 0 <= j < xs.len() ==> #[trigger] vx[j] == xs@[j]@,
            forall|j: int| 0 <= j < ys.len() ==> #[trigger] vy[j] == ys@[j]@,
            compare_seqs(vx, vy) == compare_seqs(
                vx.subrange(i as int, vx.len() as int),
                vy.subrange(i as int, vy.len() as int),
            ),
        decreases xs.len() - i,
    {
        assert(decreases_to!(xs => xs@[i as int]));
        let c = xs[i].compare(&ys[i]);
        let ghost sx = vx.subrange(i as int, vx.len() as int);
        let ghost sy = vy.subrange(i as int, vy.len() as int);
        assert(sx[0] == xs@[i as int]@);
        assert(sy[0] == ys@[i as int]@);
        if c != 0 {
            return c;
        }
        assert(sx.subrange(1, sx.len() as int) =~= vx.subrange(i + 1, vx.len() as int));
        assert(sy.subrange(1, sy.len() as int) =~= vy.subrange(i + 1, vy.len() as int));
        i += 1;
    }
    let ghost sx = vx.subrange(i as int, vx.len() as int);
    let ghost sy = vy.subrange(i as int, vy.len() as int);
    if i < xs.len() {
        assert(sx.len() > 0 && sy.len() == 0);
        1
    } else if i < ys.len() {
        -1
    } else {
        0
    }
}

impl Clone for Term {
    fn clone(&self) -> Self {
        self.copy()
    }
}

impl Clone for Function {
    fn clone(&self) -> Self {
        Function { symbol: self.symbol, arguments: copy_arguments(&self.arguments) }
    }
}

impl Clone for Normalizable {
    fn clone(&self) -> Self {
        Normalizable { symbol: self.symbol, arguments: copy_arguments(&self.arguments) }
    }
}

} // verus!
