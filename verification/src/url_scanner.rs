use crate::ast::Expr;
use crate::ast::ExprOrSpread;
use crate::ast::MemberExpr;
use crate::ast::MemberProp;
use crate::ast::NewExpr;
use crate::ast::Span;
use crate::dependency::is_url_dependency;
use crate::dependency::ModuleDependency;
use crate::dependency::NewURLDependency;
use crate::worker_scanner::found_of;
use crate::worker_scanner::callee_is_url;
use crate::worker_scanner::lemma_spans_read_args_each;
use crate::worker_scanner::lemma_spans_read_seq_each;
use crate::worker_scanner::lemma_worker_spans_real;
use crate::worker_scanner::match_url_args;
use crate::worker_scanner::parse_new_worker;
use crate::worker_scanner::spec_match_new_url;
use crate::worker_scanner::spec_match_new_worker;
use crate::worker_scanner::spec_match_url_args;
use crate::worker_scanner::spans_read;
use crate::worker_scanner::spans_read_args;
use crate::worker_scanner::spans_read_seq;
use crate::worker_scanner::SpanReader;
use crate::worker_scanner::worker_finds;
use crate::worker_scanner::Found;
use vstd::prelude::*;

verus! {

/// The assets that scanning `e` finds, in source order: a `new` expression that creates a
/// worker is left to the worker scanner, one of `URL` is matched and not looked into, any
/// other one is looked into.
pub open spec fn url_finds(e: Expr) -> Seq<Found>
    decreases e,
{
    match e {
        Expr::New(n) => if spec_match_new_worker(n) is Some {
            Seq::empty()
        } else if callee_is_url(n) {
            match spec_match_url_args(n.args) {
                Some(m) => seq![found_of(m, n.span)],
                None => Seq::empty(),
            }
        } else {
            url_finds(*n.callee) + url_finds_opt_args(n.args)
        },
        Expr::Member(m) => url_finds(*m.obj) + match m.prop {
            MemberProp::Computed(p) => url_finds(*p),
            _ => Seq::empty(),
        },
        Expr::Other(_, children) => url_finds_seq(children@),
        _ => Seq::empty(),
    }
}

pub open spec fn url_finds_opt_args(args: Option<Vec<ExprOrSpread>>) -> Seq<Found>
    decreases args,
{
    match args {
        Some(a) => url_finds_args(a@),
        None => Seq::empty(),
    }
}

pub open spec fn url_finds_args(args: Seq<ExprOrSpread>) -> Seq<Found>
    decreases args,
{
    if args.len() == 0 {
        Seq::empty()
    } else {
        url_finds_args(args.drop_last()) + url_finds(*args.last().expr)
    }
}

pub open spec fn url_finds_seq(es: Seq<Expr>) -> Seq<Found>
    decreases es,
{
    if es.len() == 0 {
        Seq::empty()
    } else {
        url_finds_seq(es.drop_last()) + url_finds(es.last())
    }
}

/// Finds `new URL("./a.png", import.meta.url)` and records an asset dependency for each.
pub struct UrlScanner {
    pub dependencies: Vec<ModuleDependency>,
}

impl UrlScanner {
    pub fn new(dependencies: Vec<ModuleDependency>) -> (scanner: Self)
        ensures
            scanner.dependencies == dependencies,
    {
        UrlScanner { dependencies }
    }

    /// `new` is `old` after recording the assets `finds`.
    pub open spec fn recorded(old: &Self, new: &Self, finds: Seq<Found>) -> bool {
        let n = old.dependencies@.len();
        &&& new.dependencies@.len() == n + finds.len()
        &&& forall|i: int| 0 <= i < n ==> #[trigger] new.dependencies@[i] == old.dependencies@[i]
        &&& forall|i: int|
            0 <= i < finds.len() ==> is_url_dependency(
                #[trigger] new.dependencies@[n + i],
                finds[i].0,
                finds[i].1,
                finds[i].2,
                finds[i].3,
            )
    }

    /// Scanning twice in a row records what scanning both at once would: the assets found
    /// first, then those found next.
    pub proof fn lemma_recorded_trans(a: &Self, b: &Self, c: &Self, f1: Seq<Found>, f2: Seq<Found>)
        requires
            Self::recorded(a, b, f1),
            Self::recorded(b, c, f2),
        ensures
            Self::recorded(a, c, f1 + f2),
    {
        let n = a.dependencies@.len();
        let f = f1 + f2;
        assert forall|i: int| 0 <= i < n implies #[trigger] c.dependencies@[i] == a.dependencies@[i] by {
            assert(b.dependencies@[i] == a.dependencies@[i]);
        }
        assert forall|i: int| 0 <= i < f.len() implies is_url_dependency(
            #[trigger] c.dependencies@[n + i],
            f[i].0,
            f[i].1,
            f[i].2,
            f[i].3,
        ) by {
            if i < f1.len() {
                assert(c.dependencies@[n + i] == b.dependencies@[n + i]);
            } else {
                let j = i - f1.len();
                assert(c.dependencies@[b.dependencies@.len() + j] == c.dependencies@[n + i]);
                assert(f[i] == f2[j]);
            }
        }
    }

    /// Records an asset dependency if `new_expr` is `new URL("lit", import.meta.url)`; looks
    /// into it if it is neither a worker nor a `URL`.
    pub fn visit_new_expr(&mut self, new_expr: &NewExpr)
        requires
            spans_read(SpanReader::Urls, Expr::New(*new_expr)),
        ensures
            Self::recorded(old(self), final(self), url_finds(Expr::New(*new_expr))),
        decreases *new_expr,
    {
        proof {
            lemma_worker_spans_real(SpanReader::Urls, *new_expr);
        }
        let ghost start = *self;
        if parse_new_worker(new_expr).is_some() {
            return ;
        }
        match &*new_expr.callee {
            Expr::Ident(callee) if callee.sym == String::from_str("URL") => {
                proof {
                    assert(spec_match_new_url(*new_expr) == spec_match_url_args(new_expr.args));
                }
                if let Some((start_pos, end_pos, url)) = match_url_args(&new_expr.args) {
                    let dependency = NewURLDependency::new(start_pos, end_pos, url, Some(new_expr.span));
                    self.dependencies.push(ModuleDependency::NewUrl(dependency));
                    proof {
                        let n = start.dependencies@.len();
                        assert(self.dependencies@[n + 0int] == self.dependencies@[n as int]);
                        assert forall|i: int| 0 <= i < n implies #[trigger] self.dependencies@[i] == start.dependencies@[i] by {
                        }
                    }
                }
            },
            _ => {
                self.visit_new_expr_children(new_expr);
            },
        }
    }

    /// Looks into the callee and the arguments of a `new` expression.
    fn visit_new_expr_children(&mut self, new_expr: &NewExpr)
        requires
            spans_read(SpanReader::Urls, Expr::New(*new_expr)),
            spec_match_new_worker(*new_expr) is None,
            !callee_is_url(*new_expr),
        ensures
            Self::recorded(old(self), final(self), url_finds(Expr::New(*new_expr))),
        decreases *new_expr, 0nat,
    {
        let ghost start = *self;
        let ghost args_finds = url_finds_opt_args(new_expr.args);
        self.visit_expr(&new_expr.callee);
        match &new_expr.args {
            Some(args) => {
                let ghost mid = *self;
                let mut i: usize = 0;
                while i < args.len()
                    invariant
                        i <= args.len(),
                        new_expr.args == Some(*args),
                        spans_read_args(SpanReader::Urls, args@),
                        Self::recorded(&mid, self, url_finds_args(args@.take(i as int))),
                    decreases args.len() - i,
                {
                    proof {
                        lemma_spans_read_args_each(SpanReader::Urls, args@, i as int);
                        assert(args@.take(i as int + 1).drop_last() =~= args@.take(i as int));
                        let ghost a = *args;
                        assert(decreases_to!(*new_expr => new_expr.args));
                        assert(decreases_to!(new_expr.args => new_expr.args->0));
                        assert(new_expr.args->0 == a);
                        assert(decreases_to!(a => a@));
                        assert(decreases_to!(a@ => a@[i as int]));
                        assert(decreases_to!(a@[i as int] => a@[i as int].expr));
                        assert(decreases_to!(*new_expr => *args@[i as int].expr));
                    }
                    let ghost before = *self;
                    self.visit_expr(&args[i].expr);
                    proof {
                        Self::lemma_recorded_trans(&mid, &before, self, url_finds_args(args@.take(i as int)), url_finds(*args@[i as int].expr));
                    }
                    i = i + 1;
                }
                proof {
                    assert(args@.take(args@.len() as int) =~= args@);
                    Self::lemma_recorded_trans(&start, &mid, self, url_finds(*new_expr.callee), args_finds);
                }
            },
            None => {
                proof {
                    assert(url_finds(*new_expr.callee) + Seq::<Found>::empty() =~= url_finds(*new_expr.callee));
                }
            },
        }
    }

    /// Scans an expression for assets.
    pub fn visit_expr(&mut self, e: &Expr)
        requires
            spans_read(SpanReader::Urls, *e),
        ensures
            Self::recorded(old(self), final(self), url_finds(*e)),
        decreases *e,
    {
        match e {
            Expr::New(n) => {
                self.visit_new_expr(n);
            },
            Expr::Member(m) => {
                let ghost start = *self;
                self.visit_expr(&m.obj);
                match &m.prop {
                    MemberProp::Computed(p) => {
                        let ghost mid = *self;
                        self.visit_expr(p);
                        proof {
                            Self::lemma_recorded_trans(&start, &mid, self, url_finds(*m.obj), url_finds(**p));
                        }
                    },
                    _ => {
                        proof {
                            assert(url_finds(*m.obj) + Seq::<Found>::empty() =~= url_finds(*m.obj));
                        }
                    },
                }
            },
            Expr::Other(_, children) => {
                self.visit_exprs(children);
            },
            _ => {},
        }
    }

    /// Scans expressions for assets, in order.
    pub fn visit_exprs(&mut self, es: &Vec<Expr>)
        requires
            spans_read_seq(SpanReader::Urls, es@),
        ensures
            Self::recorded(old(self), final(self), url_finds_seq(es@)),
        decreases es@,
    {
        let ghost start = *self;
        let mut i: usize = 0;
        while i < es.len()
            invariant
                i <= es.len(),
                spans_read_seq(SpanReader::Urls, es@),
                Self::recorded(&start, self, url_finds_seq(es@.take(i as int))),
            decreases es.len() - i,
        {
            proof {
                lemma_spans_read_seq_each(SpanReader::Urls, es@, i as int);
                assert(es@.take(i as int + 1).drop_last() =~= es@.take(i as int));
                assert(decreases_to!(es@ => es@[i as int]));
            }
            let ghost before = *self;
            self.visit_expr(&es[i]);
            proof {
                Self::lemma_recorded_trans(&start, &before, self, url_finds_seq(es@.take(i as int)), url_finds(es@[i as int]));
            }
            i = i + 1;
        }
        proof {
            assert(es@.take(es@.len() as int) =~= es@);
        }
    }
}

/// A `new` expression that creates a worker gives the URL scanner nothing and the worker
/// scanner one worker: its `new URL(..)` is recorded once, as a worker, never as an asset.
pub proof fn lemma_worker_url_not_asset(n: NewExpr)
    requires
        spec_match_new_worker(n) is Some,
    ensures
        url_finds(Expr::New(n)) == Seq::<Found>::empty(),
        worker_finds(Expr::New(n)).len() == 1,
{
}

/// The assets that scanning each of `es` finds, one sequence per expression.
pub open spec fn url_finds_each(es: Seq<Expr>) -> Seq<Seq<Found>> {
    Seq::new(es.len(), |i: int| url_finds(es[i]))
}

/// The assets that scanning the expression of each of `args` finds, one sequence per
/// argument, spread or not.
pub open spec fn url_finds_each_arg(args: Seq<ExprOrSpread>) -> Seq<Seq<Found>> {
    Seq::new(args.len(), |i: int| url_finds(*args[i].expr))
}

/// Scanning expressions one after the other finds what scanning each of them finds, in
/// their order.
pub proof fn law_url_finds_seq(es: Seq<Expr>)
    ensures
        url_finds_seq(es) == url_finds_each(es).flatten(),
    decreases es.len(),
{
    if es.len() == 0 {
        assert(url_finds_each(es) =~= Seq::<Seq<Found>>::empty());
    } else {
        law_url_finds_seq(es.drop_last());
        assert(url_finds_each(es) =~= url_finds_each(es.drop_last()).push(url_finds(es.last())));
        url_finds_each(es.drop_last()).lemma_flatten_push(url_finds(es.last()));
    }
}

/// Scanning arguments one after the other finds what scanning each of their expressions
/// finds, in their order.
pub proof fn law_url_finds_args(args: Seq<ExprOrSpread>)
    ensures
        url_finds_args(args) == url_finds_each_arg(args).flatten(),
    decreases args.len(),
{
    if args.len() == 0 {
        assert(url_finds_each_arg(args) =~= Seq::<Seq<Found>>::empty());
    } else {
        law_url_finds_args(args.drop_last());
        assert(url_finds_each_arg(args) =~= url_finds_each_arg(args.drop_last()).push(url_finds(*args.last().expr)));
        url_finds_each_arg(args.drop_last()).lemma_flatten_push(url_finds(*args.last().expr));
    }
}

/// An expression of any other kind finds the assets of the expressions directly inside
/// it, in their order.
pub proof fn law_url_other(s: Span, children: Vec<Expr>)
    ensures
        url_finds(Expr::Other(s, children)) == url_finds_each(children@).flatten(),
{
    law_url_finds_seq(children@);
}

/// A member expression finds the assets of its object first, then those of a computed
/// property; a named property holds none.
pub proof fn law_url_member(m: MemberExpr)
    ensures
        url_finds(*m.obj).is_prefix_of(url_finds(Expr::Member(m))),
        m.prop matches MemberProp::Computed(p) ==> url_finds(Expr::Member(m)) == url_finds(*m.obj) + url_finds(*p),
        !(m.prop is Computed) ==> url_finds(Expr::Member(m)) == url_finds(*m.obj),
{
    let f = url_finds(Expr::Member(m));
    let o = url_finds(*m.obj);
    assert(o =~= f.subrange(0, o.len() as int));
}

/// A `new URL(..)` that creates no worker finds its one asset where its arguments match,
/// none otherwise, and nothing inside it.
pub proof fn law_url_new_url(n: NewExpr)
    requires
        spec_match_new_worker(n) is None,
        callee_is_url(n),
    ensures
        spec_match_url_args(n.args) matches Some(m) ==> url_finds(Expr::New(n)) == seq![found_of(m, n.span)],
        spec_match_url_args(n.args) is None ==> url_finds(Expr::New(n)) == Seq::<Found>::empty(),
{
}

/// Any other `new` expression that creates no worker finds the assets of its callee, then
/// those of each of its arguments, in their order.
pub proof fn law_url_new_walked(n: NewExpr)
    requires
        spec_match_new_worker(n) is None,
        !callee_is_url(n),
    ensures
        n.args matches Some(a) ==> url_finds(Expr::New(n)) == url_finds(*n.callee) + url_finds_each_arg(a@).flatten(),
        n.args is None ==> url_finds(Expr::New(n)) == url_finds(*n.callee),
{
    assert(url_finds(Expr::New(n)) == url_finds(*n.callee) + url_finds_opt_args(n.args));
    match n.args {
        Some(a) => {
            law_url_finds_args(a@);
            assert(url_finds_opt_args(n.args) == url_finds_args(a@));
        },
        None => {
            assert(url_finds(*n.callee) + Seq::<Found>::empty() =~= url_finds(*n.callee));
        },
    }
}

/// Identifiers, literals and meta properties hold no asset.
pub proof fn law_url_leaves(e: Expr)
    requires
        e is Ident || e is Lit || e is MetaProp,
    ensures
        url_finds(e) == Seq::<Found>::empty(),
{
}

} // verus!
