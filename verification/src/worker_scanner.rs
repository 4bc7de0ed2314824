use crate::ast::is_import_meta_url;
use crate::ast::spec_is_import_meta_url;
use crate::ast::Expr;
use crate::ast::ExprOrSpread;
use crate::ast::Lit;
use crate::ast::MemberExpr;
use crate::ast::MemberProp;
use crate::ast::MetaPropKind;
use crate::ast::NewExpr;
use crate::ast::Span;
use crate::compilation::EntryOptions;
use crate::dependency::is_worker_dependency;
use crate::dependency::ChunkGroupOptions;
use crate::dependency::ModuleDependency;
use crate::dependency::WorkerDependency;
use crate::hash::digest;
use crate::hash::render_digest;
use crate::hash::worker_hash_message;
use crate::hash::worker_runtime;
use crate::options::OutputOptions;
use vstd::prelude::*;

verus! {

/// What a pattern match found: the span of the string literal, the span of the expression
/// after it, and the literal's value.
pub type UrlMatch = (Span, Span, Seq<char>);

/// Whether `constructor` names a worker class.
pub open spec fn is_worker_constructor(constructor: Seq<char>) -> bool {
    constructor == "Worker"@ || constructor == "SharedWorker"@
}

/// Whether `constructor` names a worker class.
pub fn match_worker_constructor(constructor: &str) -> (r: bool)
    ensures
        r == is_worker_constructor(constructor@),
{
    let c = constructor.to_owned();
    c == String::from_str("Worker") || c == String::from_str("SharedWorker")
}

/// The arguments `("lit", import.meta.url, ...)`, neither of the first two spread.
pub open spec fn spec_match_url_args(args: Option<Vec<ExprOrSpread>>) -> Option<UrlMatch> {
    match args {
        Some(a) => if a@.len() >= 2 && a@[0].spread is None && a@[1].spread is None {
            match *a@[0].expr {
                Expr::Lit(Lit::Str(path)) => if spec_is_import_meta_url(*a@[1].expr) {
                    Some((path.span, a@[1].expr.spec_span(), path.value@))
                } else {
                    None
                },
                _ => None,
            }
        } else {
            None
        },
        None => None,
    }
}

/// `new URL("lit", import.meta.url)`.
pub open spec fn spec_match_new_url(n: NewExpr) -> Option<UrlMatch> {
    match *n.callee {
        Expr::Ident(callee) => if callee.sym@ == "URL"@ {
            spec_match_url_args(n.args)
        } else {
            None
        },
        _ => None,
    }
}

/// `new Worker(new URL("lit", import.meta.url))`, or the same with `SharedWorker`.
pub open spec fn spec_match_new_worker(n: NewExpr) -> Option<UrlMatch> {
    match *n.callee {
        Expr::Ident(callee) => if is_worker_constructor(callee.sym@) {
            match n.args {
                Some(a) => if a@.len() >= 1 && a@[0].spread is None {
                    match *a@[0].expr {
                        Expr::New(inner) => spec_match_new_url(inner),
                        _ => None,
                    }
                } else {
                    None
                },
                None => None,
            }
        } else {
            None
        },
        _ => None,
    }
}

/// A match whose spans are real positions, so that they have zero-based offsets.
pub open spec fn match_spans_real(m: Option<UrlMatch>) -> bool {
    match m {
        Some((path, url, _)) => path.lo >= 1 && url.hi >= 1,
        None => true,
    }
}

/// Which scanner reads the spans.
#[derive(Clone, Copy, Debug, PartialEq, Eq, Structural)]
pub enum SpanReader {
    Workers,
    Urls,
}

/// Whether the callee of `n` is the identifier `URL`.
pub open spec fn callee_is_url(n: NewExpr) -> bool {
    match *n.callee {
        Expr::Ident(callee) => callee.sym@ == "URL"@,
        _ => false,
    }
}

/// The spans that scanner `r` reads in `e` are real positions, as a parser gives them:
/// those of every worker match it meets, and, for the URL scanner, those of every
/// `new URL(..)` match it meets. Neither scanner looks into a worker match, nor the URL
/// scanner into a `new URL(..)`.
pub open spec fn spans_read(r: SpanReader, e: Expr) -> bool
    decreases e,
{
    match e {
        Expr::New(n) => if spec_match_new_worker(n) is Some {
            match_spans_real(spec_match_new_worker(n))
        } else if r == SpanReader::Urls && callee_is_url(n) {
            match_spans_real(spec_match_new_url(n))
        } else {
            &&& spans_read(r, *n.callee)
            &&& match n.args {
                Some(a) => spans_read_args(r, a@),
                None => true,
            }
        },
        Expr::Member(m) => spans_read(r, *m.obj) && match m.prop {
            MemberProp::Computed(p) => spans_read(r, *p),
            _ => true,
        },
        Expr::Other(_, children) => spans_read_seq(r, children@),
        _ => true,
    }
}

pub open spec fn spans_read_args(r: SpanReader, args: Seq<ExprOrSpread>) -> bool
    decreases args,
{
    if args.len() == 0 {
        true
    } else {
        spans_read_args(r, args.drop_last()) && spans_read(r, *args.last().expr)
    }
}

pub open spec fn spans_read_seq(r: SpanReader, es: Seq<Expr>) -> bool
    decreases es,
{
    if es.len() == 0 {
        true
    } else {
        spans_read_seq(r, es.drop_last()) && spans_read(r, es.last())
    }
}

/// Matches the arguments `("lit", import.meta.url, ...)`, giving the zero-based start of
/// the literal, the zero-based end of `import.meta.url` and the literal's value.
pub fn match_url_args(args: &Option<Vec<ExprOrSpread>>) -> (r: Option<(u32, u32, String)>)
    requires
        match_spans_real(spec_match_url_args(*args)),
    ensures
        match spec_match_url_args(*args) {
            Some((path, url, value)) => r matches Some(x) && x.0 == path.lo - 1 && x.1 == url.hi - 1
                && x.2@ == value,
            None => r is None,
        },
{
    match args {
        Some(a) => {
            if a.len() >= 2 && a[0].spread.is_none() && a[1].spread.is_none() {
                match &*a[0].expr {
                    Expr::Lit(Lit::Str(path)) => {
                        if is_import_meta_url(&*a[1].expr) {
                            let value = path.value.clone();
                            Some((path.span.real_lo(), a[1].expr.span().real_hi(), value))
                        } else {
                            None
                        }
                    },
                    _ => None,
                }
            } else {
                None
            }
        },
        None => None,
    }
}

/// Matches `new URL("lit", import.meta.url)`.
pub fn match_new_url(new_expr: &NewExpr) -> (r: Option<(u32, u32, String)>)
    requires
        match_spans_real(spec_match_new_url(*new_expr)),
    ensures
        match spec_match_new_url(*new_expr) {
            Some((path, url, value)) => r matches Some(x) && x.0 == path.lo - 1 && x.1 == url.hi - 1
                && x.2@ == value,
            None => r is None,
        },
{
    match &*new_expr.callee {
        Expr::Ident(callee) => {
            if callee.sym == String::from_str("URL") {
                match_url_args(&new_expr.args)
            } else {
                None
            }
        },
        _ => None,
    }
}

/// Matches `new Worker(new URL("lit", import.meta.url))` (or `SharedWorker`), giving the
/// zero-based start of the literal, the zero-based end of `import.meta.url` and the
/// literal's value.
pub fn parse_new_worker(new_expr: &NewExpr) -> (r: Option<(u32, u32, String)>)
    requires
        match_spans_real(spec_match_new_worker(*new_expr)),
    ensures
        match spec_match_new_worker(*new_expr) {
            Some((path, url, value)) => r matches Some(x) && x.0 == path.lo - 1 && x.1 == url.hi - 1
                && x.2@ == value,
            None => r is None,
        },
{
    match &*new_expr.callee {
        Expr::Ident(callee) => {
            if match_worker_constructor(callee.sym.as_str()) {
                match &new_expr.args {
                    Some(args) => {
                        if args.len() >= 1 && args[0].spread.is_none() {
                            match &*args[0].expr {
                                Expr::New(inner) => match_new_url(inner),
                                _ => None,
                            }
                        } else {
                            None
                        }
                    },
                    None => None,
                }
            } else {
                None
            }
        },
        _ => None,
    }
}

/// The spans of a worker match are read, so they are real.
pub proof fn lemma_worker_spans_real(r: SpanReader, n: NewExpr)
    requires
        spans_read(r, Expr::New(n)),
    ensures
        match_spans_real(spec_match_new_worker(n)),
{
}

/// Each argument of a sequence whose read spans are real has real read spans.
pub proof fn lemma_spans_read_args_each(r: SpanReader, args: Seq<ExprOrSpread>, i: int)
    requires
        spans_read_args(r, args),
        0 <= i < args.len(),
    ensures
        spans_read(r, *args[i].expr),
    decreases args.len(),
{
    if i < args.len() - 1 {
        lemma_spans_read_args_each(r, args.drop_last(), i);
        assert(args.drop_last()[i] == args[i]);
    }
}

/// Each expression of a sequence whose read spans are real has real read spans.
pub proof fn lemma_spans_read_seq_each(r: SpanReader, es: Seq<Expr>, i: int)
    requires
        spans_read_seq(r, es),
        0 <= i < es.len(),
    ensures
        spans_read(r, es[i]),
    decreases es.len(),
{
    if i < es.len() - 1 {
        lemma_spans_read_seq_each(r, es.drop_last(), i);
        assert(es.drop_last()[i] == es[i]);
    }
}

/// What a scanner found at a `new` expression: the zero-based start of the string literal,
/// the zero-based end of `import.meta.url`, the literal's value and the span of the `new`
/// expression.
pub type Found = (u32, u32, Seq<char>, Span);

/// The found item of a match in the `new` expression spanning `span`.
pub open spec fn found_of(m: UrlMatch, span: Span) -> Found {
    ((m.0.lo - 1) as u32, (m.1.hi - 1) as u32, m.2, span)
}

/// The workers that scanning `e` finds, in source order: a `new` expression that creates a
/// worker is not looked into, any other one is.
pub open spec fn worker_finds(e: Expr) -> Seq<Found>
    decreases e,
{
    match e {
        Expr::New(n) => match spec_match_new_worker(n) {
            Some(m) => seq![found_of(m, n.span)],
            None => worker_finds(*n.callee) + worker_finds_opt_args(n.args),
        },
        Expr::Member(m) => worker_finds(*m.obj) + match m.prop {
            MemberProp::Computed(p) => worker_finds(*p),
            _ => Seq::empty(),
        },
        Expr::Other(_, children) => worker_finds_seq(children@),
        _ => Seq::empty(),
    }
}

pub open spec fn worker_finds_opt_args(args: Option<Vec<ExprOrSpread>>) -> Seq<Found>
    decreases args,
{
    match args {
        Some(a) => worker_finds_args(a@),
        None => Seq::empty(),
    }
}

pub open spec fn worker_finds_args(args: Seq<ExprOrSpread>) -> Seq<Found>
    decreases args,
{
    if args.len() == 0 {
        Seq::empty()
    } else {
        worker_finds_args(args.drop_last()) + worker_finds(*args.last().expr)
    }
}

pub open spec fn worker_finds_seq(es: Seq<Expr>) -> Seq<Found>
    decreases es,
{
    if es.len() == 0 {
        Seq::empty()
    } else {
        worker_finds_seq(es.drop_last()) + worker_finds(es.last())
    }
}

/// Finds `new Worker(new URL("./w.js", import.meta.url))` and records a worker dependency
/// for each, whose entry runs in a runtime named after the module and the worker's index.
pub struct WorkerScanner {
    pub dependencies: Vec<ModuleDependency>,
    pub index: usize,
    pub module_identifier: String,
    pub output_options: OutputOptions,
}

impl WorkerScanner {
    pub fn new(
        dependencies: Vec<ModuleDependency>,
        module_identifier: String,
        output_options: OutputOptions,
    ) -> (scanner: Self)
        ensures
            scanner.dependencies == dependencies,
            scanner.index == 0,
            scanner.module_identifier == module_identifier,
            scanner.output_options == output_options,
    {
        WorkerScanner { dependencies, index: 0, module_identifier, output_options }
    }

    /// The runtime name of the `index`-th worker of the module.
    pub open spec fn runtime_of(&self, index: int) -> Seq<char> {
        worker_runtime(
            self.output_options.hash_function,
            self.output_options.hash_digest,
            self.output_options.hash_digest_length,
            self.output_options.hash_salt,
            self.module_identifier@,
            index as u64,
        )
    }

    /// `new` is `old` after recording the workers `finds`.
    pub open spec fn recorded(old: &Self, new: &Self, finds: Seq<Found>) -> bool {
        let n = old.dependencies@.len();
        &&& new.module_identifier == old.module_identifier
        &&& new.output_options == old.output_options
        &&& new.index == old.index + finds.len()
        &&& new.dependencies@.len() == n + finds.len()
        &&& forall|i: int| 0 <= i < n ==> #[trigger] new.dependencies@[i] == old.dependencies@[i]
        &&& forall|i: int|
            0 <= i < finds.len() ==> is_worker_dependency(
                #[trigger] new.dependencies@[n + i],
                finds[i].0,
                finds[i].1,
                finds[i].2,
                finds[i].3,
                old.runtime_of(old.index + i),
                old.output_options.worker_chunk_loading,
            )
    }

    /// Scanning twice in a row records what scanning both at once would: the workers found
    /// first, then those found next, the latter numbered on from where the former stopped.
    pub proof fn lemma_recorded_trans(a: &Self, b: &Self, c: &Self, f1: Seq<Found>, f2: Seq<Found>)
        requires
            Self::recorded(a, b, f1),
            Self::recorded(b, c, f2),
        ensures
            Self::recorded(a, c, f1 + f2),
    {
        let n = a.dependencies@.len();
        let f = f1 + f2;
        assert forall|i: int| 0 <= i < n implies #[trigger] c.dependencies@[i] == a.dependencies@[i] by {
            assert(b.dependencies@[i] == a.dependencies@[i]);
        }
        assert forall|i: int| 0 <= i < f.len() implies is_worker_dependency(
            #[trigger] c.dependencies@[n + i],
            f[i].0,
            f[i].1,
            f[i].2,
            f[i].3,
            a.runtime_of(a.index + i),
            a.output_options.worker_chunk_loading,
        ) by {
            if i < f1.len() {
                assert(c.dependencies@[n + i] == b.dependencies@[n + i]);
            } else {
                let j = i - f1.len();
                assert(c.dependencies@[b.dependencies@.len() + j] == c.dependencies@[n + i]);
                assert(f[i] == f2[j]);
            }
        }
    }

    proof fn lemma_recorded_none(a: &Self)
        ensures
            Self::recorded(a, a, Seq::empty()),
    {
    }

    /// Records a worker dependency if `new_expr` creates a worker, and looks into it
    /// otherwise.
    pub fn visit_new_expr(&mut self, new_expr: &NewExpr)
        requires
            spans_read(SpanReader::Workers, Expr::New(*new_expr)),
            old(self).index + worker_finds(Expr::New(*new_expr)).len() <= usize::MAX,
        ensures
            Self::recorded(old(self), final(self), worker_finds(Expr::New(*new_expr))),
        decreases *new_expr,
    {
        proof {
            lemma_worker_spans_real(SpanReader::Workers, *new_expr);
        }
        let ghost start = *self;
        if let Some((start_pos, end_pos, request)) = parse_new_worker(new_expr) {
            let message = worker_hash_message(
                &self.output_options.hash_salt,
                &self.module_identifier,
                self.index as u64,
            );
            let digest_bytes = digest(self.output_options.hash_function, &message);
            let runtime = render_digest(
                self.output_options.hash_digest,
                &digest_bytes,
                self.output_options.hash_digest_length,
            );
            self.index = self.index + 1;
            let dependency = WorkerDependency::new(
                start_pos,
                end_pos,
                request,
                Some(new_expr.span),
                ChunkGroupOptions {
                    name: None,
                    entry_options: Some(
                        EntryOptions {
                            runtime: Some(runtime),
                            chunk_loading: Some(self.output_options.worker_chunk_loading),
                            async_chunks: None,
                            public_path: None,
                            base_uri: None,
                        },
                    ),
                },
            );
            self.dependencies.push(ModuleDependency::Worker(dependency));
            proof {
                let finds = worker_finds(Expr::New(*new_expr));
                let n = start.dependencies@.len();
                assert(self.dependencies@[n + 0int] == self.dependencies@[n as int]);
                assert forall|i: int| 0 <= i < n implies #[trigger] self.dependencies@[i] == start.dependencies@[i] by {
                }
            }
        } else {
            self.visit_new_expr_children(new_expr);
        }
    }

    /// Looks into the callee and the arguments of a `new` expression.
    fn visit_new_expr_children(&mut self, new_expr: &NewExpr)
        requires
            spans_read(SpanReader::Workers, Expr::New(*new_expr)),
            spec_match_new_worker(*new_expr) is None,
            old(self).index + worker_finds(Expr::New(*new_expr)).len() <= usize::MAX,
        ensures
            Self::recorded(old(self), final(self), worker_finds(Expr::New(*new_expr))),
        decreases *new_expr, 0nat,
    {
        let ghost start = *self;
        let ghost args_finds = worker_finds_opt_args(new_expr.args);
        self.visit_expr(&new_expr.callee);
        match &new_expr.args {
            Some(args) => {
                let ghost mid = *self;
                let mut i: usize = 0;
                while i < args.len()
                    invariant
                        i <= args.len(),
                        new_expr.args == Some(*args),
                        spans_read_args(SpanReader::Workers, args@),
                        Self::recorded(&mid, self, worker_finds_args(args@.take(i as int))),
                        mid.index + worker_finds_args(args@).len() <= usize::MAX,
                    decreases args.len() - i,
                {
                    proof {
                        lemma_spans_read_args_each(SpanReader::Workers, args@, i as int);
                        lemma_worker_finds_args_take(args@, i as int + 1);
                        lemma_worker_finds_args_prefix_len(args@, i as int + 1);
                        let ghost a = *args;
                        assert(decreases_to!(*new_expr => new_expr.args));
                        assert(decreases_to!(new_expr.args => new_expr.args->0));
                        assert(new_expr.args->0 == a);
                        assert(decreases_to!(a => a@));
                        assert(decreases_to!(a@ => a@[i as int]));
                        assert(decreases_to!(a@[i as int] => a@[i as int].expr));
                        assert(decreases_to!(*new_expr => *args@[i as int].expr));
                    }
                    let ghost before = *self;
                    self.visit_expr(&args[i].expr);
                    proof {
                        Self::lemma_recorded_trans(&mid, &before, self, worker_finds_args(args@.take(i as int)), worker_finds(*args@[i as int].expr));
                    }
                    i = i + 1;
                }
                proof {
                    assert(args@.take(args@.len() as int) =~= args@);
                    Self::lemma_recorded_trans(&start, &mid, self, worker_finds(*new_expr.callee), args_finds);
                }
            },
            None => {
                proof {
                    assert(worker_finds(*new_expr.callee) + Seq::<Found>::empty() =~= worker_finds(*new_expr.callee));
                }
            },
        }
    }

    /// Scans an expression for workers.
    pub fn visit_expr(&mut self, e: &Expr)
        requires
            spans_read(SpanReader::Workers, *e),
            old(self).index + worker_finds(*e).len() <= usize::MAX,
        ensures
            Self::recorded(old(self), final(self), worker_finds(*e)),
        decreases *e,
    {
        match e {
            Expr::New(n) => {
                self.visit_new_expr(n);
            },
            Expr::Member(m) => {
                let ghost start = *self;
                self.visit_expr(&m.obj);
                match &m.prop {
                    MemberProp::Computed(p) => {
                        let ghost mid = *self;
                        self.visit_expr(p);
                        proof {
                            Self::lemma_recorded_trans(&start, &mid, self, worker_finds(*m.obj), worker_finds(**p));
                        }
                    },
                    _ => {
                        proof {
                            assert(worker_finds(*m.obj) + Seq::<Found>::empty() =~= worker_finds(*m.obj));
                        }
                    },
                }
            },
            Expr::Other(_, children) => {
                self.visit_exprs(children);
            },
            _ => {
                proof {
                    Self::lemma_recorded_none(self);
                }
            },
        }
    }

    /// Scans expressions for workers, in order.
    pub fn visit_exprs(&mut self, es: &Vec<Expr>)
        requires
            spans_read_seq(SpanReader::Workers, es@),
            old(self).index + worker_finds_seq(es@).len() <= usize::MAX,
        ensures
            Self::recorded(old(self), final(self), worker_finds_seq(es@)),
        decreases es@,
    {
        let ghost start = *self;
        let mut i: usize = 0;
        while i < es.len()
            invariant
                i <= es.len(),
                spans_read_seq(SpanReader::Workers, es@),
                Self::recorded(&start, self, worker_finds_seq(es@.take(i as int))),
                start.index + worker_finds_seq(es@).len() <= usize::MAX,
            decreases es.len() - i,
        {
            proof {
                lemma_spans_read_seq_each(SpanReader::Workers, es@, i as int);
                lemma_worker_finds_seq_take(es@, i as int + 1);
                lemma_worker_finds_seq_prefix_len(es@, i as int + 1);
                assert(decreases_to!(es@ => es@[i as int]));
            }
            let ghost before = *self;
            self.visit_expr(&es[i]);
            proof {
                Self::lemma_recorded_trans(&start, &before, self, worker_finds_seq(es@.take(i as int)), worker_finds(es@[i as int]));
            }
            i = i + 1;
        }
        proof {
            assert(es@.take(es@.len() as int) =~= es@);
        }
    }
}

/// The finds of a prefix one longer are those of the prefix and of the next argument.
pub proof fn lemma_worker_finds_args_take(args: Seq<ExprOrSpread>, i: int)
    requires
        0 < i <= args.len(),
    ensures
        worker_finds_args(args.take(i)) == worker_finds_args(args.take(i - 1)) + worker_finds(*args[i - 1].expr),
{
    assert(args.take(i).drop_last() =~= args.take(i - 1));
}

/// A prefix finds no more than the whole.
pub proof fn lemma_worker_finds_args_prefix_len(args: Seq<ExprOrSpread>, i: int)
    requires
        0 <= i <= args.len(),
    ensures
        worker_finds_args(args.take(i)).len() <= worker_finds_args(args).len(),
    decreases args.len() - i,
{
    if i < args.len() {
        lemma_worker_finds_args_prefix_len(args, i + 1);
        lemma_worker_finds_args_take(args, i + 1);
    } else {
        assert(args.take(i) =~= args);
    }
}

pub proof fn lemma_worker_finds_seq_take(es: Seq<Expr>, i: int)
    requires
        0 < i <= es.len(),
    ensures
        worker_finds_seq(es.take(i)) == worker_finds_seq(es.take(i - 1)) + worker_finds(es[i - 1]),
{
    assert(es.take(i).drop_last() =~= es.take(i - 1));
}

pub proof fn lemma_worker_finds_seq_prefix_len(es: Seq<Expr>, i: int)
    requires
        0 <= i <= es.len(),
    ensures
        worker_finds_seq(es.take(i)).len() <= worker_finds_seq(es).len(),
    decreases es.len() - i,
{
    if i < es.len() {
        lemma_worker_finds_seq_prefix_len(es, i + 1);
        lemma_worker_finds_seq_take(es, i + 1);
    } else {
        assert(es.take(i) =~= es);
    }
}

/// Whether the callee of `n` is the identifier `URL`.
fn new_callee_is_url(n: &NewExpr) -> (r: bool)
    ensures
        r == callee_is_url(*n),
{
    match &*n.callee {
        Expr::Ident(callee) => callee.sym == String::from_str("URL"),
        _ => false,
    }
}

/// Whether the spans of `new URL("lit", import.meta.url)` are real positions, where `n`
/// is that match; `None` where it is not.
fn new_url_match_spans(n: &NewExpr) -> (r: Option<bool>)
    ensures
        r is Some <==> spec_match_new_url(*n) is Some,
        r is Some ==> r.unwrap() == match_spans_real(spec_match_new_url(*n)),
{
    match &*n.callee {
        Expr::Ident(callee) => {
            if callee.sym == String::from_str("URL") {
                match &n.args {
                    Some(a) => {
                        if a.len() >= 2 && a[0].spread.is_none() && a[1].spread.is_none() {
                            match &*a[0].expr {
                                Expr::Lit(Lit::Str(path)) => {
                                    if is_import_meta_url(&*a[1].expr) {
                                        Some(path.span.lo >= 1 && a[1].expr.span().hi >= 1)
                                    } else {
                                        None
                                    }
                                },
                                _ => None,
                            }
                        } else {
                            None
                        }
                    },
                    None => None,
                }
            } else {
                None
            }
        },
        _ => None,
    }
}

/// Whether the spans of the worker match `n` are real positions; `None` where `n` is no
/// worker match.
fn new_worker_spans_real(n: &NewExpr) -> (r: Option<bool>)
    ensures
        r is Some <==> spec_match_new_worker(*n) is Some,
        r is Some ==> r.unwrap() == match_spans_real(spec_match_new_worker(*n)),
{
    match &*n.callee {
        Expr::Ident(callee) => {
            if match_worker_constructor(callee.sym.as_str()) {
                match &n.args {
                    Some(args) => {
                        if args.len() >= 1 && args[0].spread.is_none() {
                            match &*args[0].expr {
                                Expr::New(inner) => new_url_match_spans(inner),
                                _ => None,
                            }
                        } else {
                            None
                        }
                    },
                    None => None,
                }
            } else {
                None
            }
        },
        _ => None,
    }
}

/// Whether the matched spans of `new URL("lit", import.meta.url)` are real positions.
fn new_url_spans_real(new_expr: &NewExpr) -> (r: bool)
    ensures
        r == match_spans_real(spec_match_new_url(*new_expr)),
{
    match &*new_expr.callee {
        Expr::Ident(callee) => {
            if callee.sym == String::from_str("URL") {
                match &new_expr.args {
                    Some(a) => {
                        if a.len() >= 2 && a[0].spread.is_none() && a[1].spread.is_none() {
                            match &*a[0].expr {
                                Expr::Lit(Lit::Str(path)) => {
                                    if is_import_meta_url(&*a[1].expr) {
                                        path.span.lo >= 1 && a[1].expr.span().hi >= 1
                                    } else {
                                        true
                                    }
                                },
                                _ => true,
                            }
                        } else {
                            true
                        }
                    },
                    None => true,
                }
            } else {
                true
            }
        },
        _ => true,
    }
}

/// Whether the spans that scanner `reader` reads in `e` are real positions, as it needs.
pub fn spans_are_real(reader: SpanReader, e: &Expr) -> (r: bool)
    ensures
        r == spans_read(reader, *e),
    decreases *e,
{
    match e {
        Expr::New(n) => {
            match new_worker_spans_real(n) {
                Some(b) => {
                    return b;
                },
                None => {},
            }
            if reader == SpanReader::Urls && new_callee_is_url(n) {
                return new_url_spans_real(n);
            }
            if !spans_are_real(reader, &n.callee) {
                return false;
            }
            match &n.args {
                Some(args) => {
                    let mut i: usize = 0;
                    while i < args.len()
                        invariant
                            i <= args.len(),
                            *e == Expr::New(*n),
                            n.args == Some(*args),
                            spec_match_new_worker(*n) is None,
                            !(reader == SpanReader::Urls && callee_is_url(*n)),
                            spans_read_args(reader, args@.take(i as int)),
                        decreases args.len() - i,
                    {
                        proof {
                            let ghost a = *args;
                            assert(decreases_to!(*e => (*e)->New_0));
                            assert((*e)->New_0 == *n);
                            assert(decreases_to!(*n => n.args));
                            assert(decreases_to!(n.args => n.args->0));
                            assert(n.args->0 == a);
                            assert(decreases_to!(a => a@));
                            assert(decreases_to!(a@ => a@[i as int]));
                            assert(decreases_to!(a@[i as int] => a@[i as int].expr));
                            assert(decreases_to!(*e => *args@[i as int].expr));
                            assert(args@.take(i as int + 1).drop_last() =~= args@.take(i as int));
                        }
                        if !spans_are_real(reader, &args[i].expr) {
                            proof {
                                if spans_read(reader, *e) {
                                    lemma_spans_read_args_each(reader, args@, i as int);
                                }
                            }
                            return false;
                        }
                        i = i + 1;
                    }
                    proof {
                        assert(args@.take(args@.len() as int) =~= args@);
                    }
                    true
                },
                None => true,
            }
        },
        Expr::Member(m) => {
            if !spans_are_real(reader, &m.obj) {
                return false;
            }
            match &m.prop {
                MemberProp::Computed(p) => spans_are_real(reader, p),
                _ => true,
            }
        },
        Expr::Other(_, children) => {
            let mut i: usize = 0;
            while i < children.len()
                invariant
                    i <= children.len(),
                    *e == Expr::Other(e.spec_span(), *children),
                    spans_read_seq(reader, children@.take(i as int)),
                decreases children.len() - i,
            {
                proof {
                    assert(decreases_to!(*e => (*e)->1));
                    assert((*e)->1 == *children);
                    assert(decreases_to!(*children => children@));
                    assert(decreases_to!(children@ => children@[i as int]));
                    assert(children@.take(i as int + 1).drop_last() =~= children@.take(i as int));
                }
                if !spans_are_real(reader, &children[i]) {
                    proof {
                        if spans_read(reader, *e) {
                            lemma_spans_read_seq_each(reader, children@, i as int);
                        }
                    }
                    return false;
                }
                i = i + 1;
            }
            proof {
                assert(children@.take(children@.len() as int) =~= children@);
            }
            true
        },
        _ => true,
    }
}

/// A sequence of arguments whose spans are real has a prefix whose spans are real.
proof fn lemma_spans_read_args_prefix(reader: SpanReader, args: Seq<ExprOrSpread>, i: int)
    requires
        0 <= i <= args.len(),
        spans_read_args(reader, args),
    ensures
        spans_read_args(reader, args.take(i)),
    decreases args.len() - i,
{
    if i < args.len() {
        lemma_spans_read_args_prefix(reader, args, i + 1);
        assert(args.take(i + 1).drop_last() =~= args.take(i));
    } else {
        assert(args.take(i) =~= args);
    }
}

proof fn lemma_spans_read_seq_prefix(reader: SpanReader, es: Seq<Expr>, i: int)
    requires
        0 <= i <= es.len(),
        spans_read_seq(reader, es),
    ensures
        spans_read_seq(reader, es.take(i)),
    decreases es.len() - i,
{
    if i < es.len() {
        lemma_spans_read_seq_prefix(reader, es, i + 1);
        assert(es.take(i + 1).drop_last() =~= es.take(i));
    } else {
        assert(es.take(i) =~= es);
    }
}

/// How many workers scanning `e` finds, if that number fits in a `usize`.
pub fn worker_count(e: &Expr) -> (r: Option<usize>)
    requires
        spans_read(SpanReader::Workers, *e),
    ensures
        match r {
            Some(k) => k == worker_finds(*e).len(),
            None => worker_finds(*e).len() > usize::MAX,
        },
    decreases *e,
{
    match e {
        Expr::New(n) => {
            proof {
                lemma_worker_spans_real(SpanReader::Workers, *n);
            }
            if parse_new_worker(n).is_some() {
                return Some(1);
            }
            let mut count = match worker_count(&n.callee) {
                Some(k) => k,
                None => {
                    return None;
                },
            };
            match &n.args {
                Some(args) => {
                    let mut i: usize = 0;
                    while i < args.len()
                        invariant
                            i <= args.len(),
                            *e == Expr::New(*n),
                            spec_match_new_worker(*n) is None,
                            n.args == Some(*args),
                            spans_read_args(SpanReader::Workers, args@),
                            count == worker_finds(*n.callee).len() + worker_finds_args(args@.take(i as int)).len(),
                        decreases args.len() - i,
                    {
                        proof {
                            let ghost a = *args;
                            assert(decreases_to!(*e => (*e)->New_0));
                            assert((*e)->New_0 == *n);
                            assert(decreases_to!(*n => n.args));
                            assert(decreases_to!(n.args => n.args->0));
                            assert(n.args->0 == a);
                            assert(decreases_to!(a => a@));
                            assert(decreases_to!(a@ => a@[i as int]));
                            assert(decreases_to!(a@[i as int] => a@[i as int].expr));
                            assert(decreases_to!(*e => *args@[i as int].expr));
                            lemma_spans_read_args_each(SpanReader::Workers, args@, i as int);
                            lemma_worker_finds_args_take(args@, i as int + 1);
                            lemma_worker_finds_args_prefix_len(args@, i as int + 1);
                        }
                        let ghost arg_finds = worker_finds(*args@[i as int].expr);
                        let ghost before_finds = worker_finds_args(args@.take(i as int));
                        let ghost upto_finds = worker_finds_args(args@.take(i as int + 1));
                        assert(upto_finds.len() == before_finds.len() + arg_finds.len());
                        assert(upto_finds.len() <= worker_finds_args(args@).len());
                        let k = match worker_count(&args[i].expr) {
                            Some(k) => k,
                            None => {
                                assert(arg_finds.len() > usize::MAX);
                                assert(worker_finds_opt_args(n.args) == worker_finds_args(args@));
                                assert(worker_finds(*e).len() == worker_finds(*n.callee).len() + worker_finds_args(args@).len());
                                assert(worker_finds(*e).len() > usize::MAX);
                                return None;
                            },
                        };
                        count = match count.checked_add(k) {
                            Some(c) => c,
                            None => {
                                assert(worker_finds_opt_args(n.args) == worker_finds_args(args@));
                                assert(worker_finds(*e).len() == worker_finds(*n.callee).len() + worker_finds_args(args@).len());
                                assert(worker_finds(*e).len() > usize::MAX);
                                return None;
                            },
                        };
                        i = i + 1;
                    }
                    proof {
                        assert(args@.take(args@.len() as int) =~= args@);
                        assert(worker_finds_opt_args(n.args) == worker_finds_args(args@));
                        assert(worker_finds(*e).len() == worker_finds(*n.callee).len() + worker_finds_args(args@).len());
                    }
                    Some(count)
                },
                None => {
                    assert(worker_finds_opt_args(n.args) == Seq::<Found>::empty());
                    assert(worker_finds(*e) =~= worker_finds(*n.callee));
                    Some(count)
                },
            }
        },
        Expr::Member(m) => {
            let a = match worker_count(&m.obj) {
                Some(k) => k,
                None => {
                    return None;
                },
            };
            match &m.prop {
                MemberProp::Computed(p) => match worker_count(p) {
                    Some(b) => a.checked_add(b),
                    None => None,
                },
                _ => Some(a),
            }
        },
        Expr::Other(_, children) => {
            let mut count: usize = 0;
            let mut i: usize = 0;
            while i < children.len()
                invariant
                    i <= children.len(),
                    *e == Expr::Other(e.spec_span(), *children),
                    spans_read_seq(SpanReader::Workers, children@),
                    count == worker_finds_seq(children@.take(i as int)).len(),
                decreases children.len() - i,
            {
                proof {
                    assert(decreases_to!(*e => (*e)->1));
                    assert((*e)->1 == *children);
                    assert(decreases_to!(*children => children@));
                    assert(decreases_to!(children@ => children@[i as int]));
                    assert(worker_finds(*e) == worker_finds_seq(children@));
                    lemma_spans_read_seq_each(SpanReader::Workers, children@, i as int);
                    lemma_worker_finds_seq_take(children@, i as int + 1);
                    lemma_worker_finds_seq_prefix_len(children@, i as int + 1);
                }
                let k = match worker_count(&children[i]) {
                    Some(k) => k,
                    None => {
                        return None;
                    },
                };
                count = match count.checked_add(k) {
                    Some(c) => c,
                    None => {
                        return None;
                    },
                };
                i = i + 1;
            }
            proof {
                assert(children@.take(children@.len() as int) =~= children@);
            }
            Some(count)
        },
        _ => Some(0),
    }
}

/// The workers that scanning each of `es` finds, one sequence per expression.
pub open spec fn worker_finds_each(es: Seq<Expr>) -> Seq<Seq<Found>> {
    Seq::new(es.len(), |i: int| worker_finds(es[i]))
}

/// The workers that scanning the expression of each of `args` finds, one sequence per
/// argument, spread or not.
pub open spec fn worker_finds_each_arg(args: Seq<ExprOrSpread>) -> Seq<Seq<Found>> {
    Seq::new(args.len(), |i: int| worker_finds(*args[i].expr))
}

/// Scanning expressions one after the other finds what scanning each of them finds, in
/// their order.
pub proof fn law_worker_finds_seq(es: Seq<Expr>)
    ensures
        worker_finds_seq(es) == worker_finds_each(es).flatten(),
    decreases es.len(),
{
    if es.len() == 0 {
        assert(worker_finds_each(es) =~= Seq::<Seq<Found>>::empty());
    } else {
        law_worker_finds_seq(es.drop_last());
        assert(worker_finds_each(es) =~= worker_finds_each(es.drop_last()).push(worker_finds(es.last())));
        worker_finds_each(es.drop_last()).lemma_flatten_push(worker_finds(es.last()));
    }
}

/// Scanning arguments one after the other finds what scanning each of their expressions
/// finds, in their order.
pub proof fn law_worker_finds_args(args: Seq<ExprOrSpread>)
    ensures
        worker_finds_args(args) == worker_finds_each_arg(args).flatten(),
    decreases args.len(),
{
    if args.len() == 0 {
        assert(worker_finds_each_arg(args) =~= Seq::<Seq<Found>>::empty());
    } else {
        law_worker_finds_args(args.drop_last());
        assert(worker_finds_each_arg(args) =~= worker_finds_each_arg(args.drop_last()).push(worker_finds(*args.last().expr)));
        worker_finds_each_arg(args.drop_last()).lemma_flatten_push(worker_finds(*args.last().expr));
    }
}

/// An expression of any other kind finds the workers of the expressions directly inside
/// it, in their order.
pub proof fn law_worker_other(s: Span, children: Vec<Expr>)
    ensures
        worker_finds(Expr::Other(s, children)) == worker_finds_each(children@).flatten(),
{
    law_worker_finds_seq(children@);
}

/// A member expression finds the workers of its object first, then those of a computed
/// property; a named property holds none.
pub proof fn law_worker_member(m: MemberExpr)
    ensures
        worker_finds(*m.obj).is_prefix_of(worker_finds(Expr::Member(m))),
        m.prop matches MemberProp::Computed(p) ==> worker_finds(Expr::Member(m)) == worker_finds(*m.obj) + worker_finds(*p),
        !(m.prop is Computed) ==> worker_finds(Expr::Member(m)) == worker_finds(*m.obj),
{
    let f = worker_finds(Expr::Member(m));
    let o = worker_finds(*m.obj);
    assert(o =~= f.subrange(0, o.len() as int));
}

/// A `new` expression that creates a worker finds that one worker and nothing inside it.
pub proof fn law_worker_new_matched(n: NewExpr)
    requires
        spec_match_new_worker(n) is Some,
    ensures
        worker_finds(Expr::New(n)) == seq![found_of(spec_match_new_worker(n).unwrap(), n.span)],
{
}

/// Any other `new` expression finds the workers of its callee, then those of each of its
/// arguments, in their order.
pub proof fn law_worker_new_walked(n: NewExpr)
    requires
        spec_match_new_worker(n) is None,
    ensures
        n.args matches Some(a) ==> worker_finds(Expr::New(n)) == worker_finds(*n.callee) + worker_finds_each_arg(a@).flatten(),
        n.args is None ==> worker_finds(Expr::New(n)) == worker_finds(*n.callee),
{
    assert(worker_finds(Expr::New(n)) == worker_finds(*n.callee) + worker_finds_opt_args(n.args));
    match n.args {
        Some(a) => {
            law_worker_finds_args(a@);
            assert(worker_finds_opt_args(n.args) == worker_finds_args(a@));
        },
        None => {
            assert(worker_finds(*n.callee) + Seq::<Found>::empty() =~= worker_finds(*n.callee));
        },
    }
}

/// Identifiers, literals and meta properties hold no worker.
pub proof fn law_worker_leaves(e: Expr)
    requires
        e is Ident || e is Lit || e is MetaProp,
    ensures
        worker_finds(e) == Seq::<Found>::empty(),
{
}

/// Only a callee that is the identifier `Worker` or `SharedWorker` gives a worker match.
pub proof fn law_new_worker_callee(n: NewExpr)
    ensures
        spec_match_new_worker(n) is Some ==> (*n.callee matches Expr::Ident(c) && is_worker_constructor(c.sym@)),
{
}

/// Given a worker constructor and an unspread first argument, the first argument decides:
/// the match is that of the `new URL(..)` it is, and there is none if it is no `new`
/// expression.
pub proof fn law_new_worker_first_arg(n: NewExpr)
    requires
        *n.callee matches Expr::Ident(c) && is_worker_constructor(c.sym@),
        n.args is Some,
        n.args.unwrap()@.len() >= 1,
        n.args.unwrap()@[0].spread is None,
    ensures
        *n.args.unwrap()@[0].expr matches Expr::New(inner) ==> spec_match_new_worker(n) == spec_match_new_url(inner),
        !(*n.args.unwrap()@[0].expr is New) ==> spec_match_new_worker(n) is None,
{
}

/// A worker construction without arguments, or whose first argument is spread, is no match.
pub proof fn law_new_worker_needs_first_arg(n: NewExpr)
    requires
        n.args is None || n.args.unwrap()@.len() == 0 || n.args.unwrap()@[0].spread is Some,
    ensures
        spec_match_new_worker(n) is None,
{
}

/// Arguments after the first do not change whether, or what, a worker construction
/// matches.
pub proof fn law_new_worker_extra_args(n1: NewExpr, n2: NewExpr)
    requires
        n1.callee == n2.callee,
        n1.args is Some,
        n2.args is Some,
        n1.args.unwrap()@.len() >= 1,
        n1.args.unwrap()@.is_prefix_of(n2.args.unwrap()@),
    ensures
        spec_match_new_worker(n1) == spec_match_new_worker(n2),
{
    assert(n1.args.unwrap()@[0] == n2.args.unwrap()@.subrange(0, n1.args.unwrap()@.len() as int)[0]);
}

/// Arguments after the second do not change whether, or what, the arguments of a
/// `new URL(..)` match.
pub proof fn law_url_args_extra_args(a1: Vec<ExprOrSpread>, a2: Vec<ExprOrSpread>)
    requires
        a1@.len() >= 2,
        a1@.is_prefix_of(a2@),
    ensures
        spec_match_url_args(Some(a1)) == spec_match_url_args(Some(a2)),
{
    assert(a1@[0] == a2@.subrange(0, a1@.len() as int)[0]);
    assert(a1@[1] == a2@.subrange(0, a1@.len() as int)[1]);
}

/// Fewer than two arguments, or a spread one among the first two, give no `new URL(..)`
/// match.
pub proof fn law_url_args_need_two(a: Vec<ExprOrSpread>)
    requires
        a@.len() < 2 || a@[0].spread is Some || a@[1].spread is Some,
    ensures
        spec_match_url_args(Some(a)) is None,
{
}

/// The arguments of a `new URL(..)` match exactly when the first two are unspread, the
/// first is a string literal and the second is `import.meta.url`; the match gives the
/// literal's span, the span of `import.meta.url` and the literal's value.
pub proof fn law_url_args_shape(a: Vec<ExprOrSpread>)
    ensures
        spec_match_url_args(Some(a)) is Some ==> {
            &&& a@.len() >= 2
            &&& a@[0].spread is None
            &&& a@[1].spread is None
            &&& *a@[0].expr is Lit
            &&& spec_is_import_meta_url(*a@[1].expr)
        },
        (a@.len() >= 2 && a@[0].spread is None && a@[1].spread is None && spec_is_import_meta_url(*a@[1].expr))
            ==> (*a@[0].expr matches Expr::Lit(Lit::Str(path)) ==> spec_match_url_args(Some(a)) == Some(
            (path.span, a@[1].expr.spec_span(), path.value@),
        )),
{
}

/// Only a callee that is the identifier `URL` gives a `new URL(..)` match, and then its
/// arguments decide.
pub proof fn law_new_url_callee(n: NewExpr)
    ensures
        !callee_is_url(n) ==> spec_match_new_url(n) is None,
        callee_is_url(n) ==> spec_match_new_url(n) == spec_match_url_args(n.args),
{
}

/// `import.meta.url` is recognised exactly: the property `url`, by name, of the meta
/// property `import.meta`.
pub proof fn law_import_meta_url_shape(e: Expr)
    ensures
        spec_is_import_meta_url(e) == match e {
            Expr::Member(m) => match *m.obj {
                Expr::MetaProp(meta) => match m.prop {
                    MemberProp::Ident(p) => meta.kind == MetaPropKind::ImportMeta && p.sym@ == seq!['u', 'r', 'l'],
                    _ => false,
                },
                _ => false,
            },
            _ => false,
        },
{
}

/// A found item holds the zero-based offsets of the literal's start and of the end of
/// `import.meta.url`, the literal's value and the span of the `new` expression.
pub proof fn law_found_zero_based(m: UrlMatch, span: Span)
    requires
        match_spans_real(Some(m)),
    ensures
        found_of(m, span).0 + 1 == m.0.lo,
        found_of(m, span).1 + 1 == m.1.hi,
        found_of(m, span).2 == m.2,
        found_of(m, span).3 == span,
{
}

} // verus!
