use rspack_split_chunks::ast::Expr;
use rspack_split_chunks::ast::ExprOrSpread;
use rspack_split_chunks::ast::Ident;
use rspack_split_chunks::ast::Lit;
use rspack_split_chunks::ast::MemberExpr;
use rspack_split_chunks::ast::MemberProp;
use rspack_split_chunks::ast::MetaPropExpr;
use rspack_split_chunks::ast::MetaPropKind;
use rspack_split_chunks::ast::NewExpr;
use rspack_split_chunks::ast::Span;
use rspack_split_chunks::ast::Str;
use rspack_split_chunks::dependency::ModuleDependency;
use rspack_split_chunks::options::ChunkLoading;
use rspack_split_chunks::options::ChunkLoadingType;
use rspack_split_chunks::options::HashDigest;
use rspack_split_chunks::options::HashFunction;
use rspack_split_chunks::options::HashSalt;
use rspack_split_chunks::options::OutputOptions;
use rspack_split_chunks::url_scanner::UrlScanner;
use rspack_split_chunks::worker_scanner::match_worker_constructor;
use rspack_split_chunks::worker_scanner::spans_are_real;
use rspack_split_chunks::worker_scanner::SpanReader;
use rspack_split_chunks::worker_scanner::parse_new_worker;
use rspack_split_chunks::worker_scanner::WorkerScanner;

fn span(lo: u32, hi: u32) -> Span {
    Span { lo, hi }
}

fn ident(name: &str, lo: u32) -> Expr {
    Expr::Ident(Ident { span: span(lo, lo + name.len() as u32), sym: name.to_string() })
}

fn str_lit(value: &str, lo: u32) -> Expr {
    Expr::Lit(Lit::Str(Str { span: span(lo, lo + value.len() as u32 + 2), value: value.to_string() }))
}

fn import_meta_url(lo: u32) -> Expr {
    Expr::Member(MemberExpr {
        span: span(lo, lo + 15),
        obj: Box::new(Expr::MetaProp(MetaPropExpr { span: span(lo, lo + 11), kind: MetaPropKind::ImportMeta })),
        prop: MemberProp::Ident(Ident { span: span(lo + 12, lo + 15), sym: "url".to_string() }),
    })
}

fn arg(e: Expr) -> ExprOrSpread {
    ExprOrSpread { spread: None, expr: Box::new(e) }
}

fn new_expr(lo: u32, hi: u32, callee: Expr, args: Vec<ExprOrSpread>) -> NewExpr {
    NewExpr { span: span(lo, hi), callee: Box::new(callee), args: Some(args) }
}

/// `new URL("<path>", import.meta.url)` starting at `lo`.
fn new_url(path: &str, lo: u32) -> NewExpr {
    let lit_lo = lo + 8;
    let meta_lo = lit_lo + path.len() as u32 + 4;
    new_expr(lo, meta_lo + 16, ident("URL", lo + 4), vec![arg(str_lit(path, lit_lo)), arg(import_meta_url(meta_lo))])
}

/// `new <class>(new URL("<path>", import.meta.url))` starting at `lo`.
fn new_worker(class: &str, path: &str, lo: u32) -> NewExpr {
    let inner_lo = lo + 5 + class.len() as u32;
    let inner = new_url(path, inner_lo);
    let hi = inner.span.hi + 1;
    new_expr(lo, hi, ident(class, lo + 4), vec![arg(Expr::New(inner))])
}

fn output_options(length: usize) -> OutputOptions {
    OutputOptions {
        hash_function: HashFunction::Xxhash64,
        hash_digest: HashDigest::Hex,
        hash_digest_length: length,
        hash_salt: HashSalt::NoSalt,
        worker_chunk_loading: ChunkLoading::Enable(ChunkLoadingType::ImportScripts),
    }
}

fn expected_runtime(module_identifier: &str, index: u64, length: usize) -> String {
    let mut message = module_identifier.as_bytes().to_vec();
    message.push(0xff);
    message.extend_from_slice(&index.to_le_bytes());
    let digest = xxhash_rust::xxh3::xxh3_64(&message).to_le_bytes();
    let hex: String = digest.iter().map(|b| format!("{:02x}", b)).collect();
    hex[..length.min(hex.len())].to_string()
}

#[test]
fn worker_constructors_are_matched_by_name() {
    assert!(match_worker_constructor("Worker"));
    assert!(match_worker_constructor("SharedWorker"));
    assert!(!match_worker_constructor("worker"));
    assert!(!match_worker_constructor("URL"));
}

#[test]
fn parse_new_worker_gives_offsets_and_request() {
    let n = new_worker("Worker", "./w.js", 1);
    // the literal starts at position 20, `import.meta.url` ends at position 45
    assert_eq!(parse_new_worker(&n), Some((19, 44, "./w.js".to_string())));
}

#[test]
fn parse_new_worker_rejects_other_shapes() {
    assert_eq!(parse_new_worker(&new_url("./a.png", 1)), None);
    let not_worker = new_worker("Foo", "./w.js", 1);
    assert_eq!(parse_new_worker(&not_worker), None);
    let mut spread = new_worker("Worker", "./w.js", 1);
    spread.args.as_mut().unwrap()[0].spread = Some(span(12, 15));
    assert_eq!(parse_new_worker(&spread), None);
    let mut no_args = new_worker("Worker", "./w.js", 1);
    no_args.args = None;
    assert_eq!(parse_new_worker(&no_args), None);
}

#[test]
fn worker_scanner_records_a_worker_with_its_runtime() {
    let mut scanner = WorkerScanner::new(Vec::new(), "./src/index.js".to_string(), output_options(8));
    let n = new_worker("Worker", "./w.js", 1);
    let outer_span = n.span;
    scanner.visit_expr(&Expr::New(n));
    assert_eq!(scanner.index, 1);
    assert_eq!(scanner.dependencies.len(), 1);
    match &scanner.dependencies[0] {
        ModuleDependency::Worker(w) => {
            assert_eq!((w.start, w.end), (19, 44));
            assert_eq!(w.request, "./w.js");
            assert_eq!(w.span, Some(outer_span));
            assert_eq!(w.group_options.name, None);
            let options = w.group_options.entry_options.as_ref().unwrap();
            assert_eq!(options.runtime.as_deref(), Some(expected_runtime("./src/index.js", 0, 8).as_str()));
            assert_eq!(options.chunk_loading, Some(ChunkLoading::Enable(ChunkLoadingType::ImportScripts)));
            assert_eq!(options.async_chunks, None);
            assert_eq!(options.public_path, None);
            assert_eq!(options.base_uri, None);
        },
        _ => panic!("expected a worker dependency"),
    }
}

#[test]
fn worker_runtimes_count_the_workers_of_a_module() {
    let mut scanner = WorkerScanner::new(Vec::new(), "m".to_string(), output_options(16));
    let exprs = vec![
        Expr::New(new_worker("Worker", "./a.js", 1)),
        Expr::New(new_worker("SharedWorker", "./b.js", 100)),
    ];
    scanner.visit_exprs(&exprs);
    assert_eq!(scanner.index, 2);
    let runtimes: Vec<String> = scanner
        .dependencies
        .iter()
        .map(|d| match d {
            ModuleDependency::Worker(w) => w.group_options.entry_options.as_ref().unwrap().runtime.clone().unwrap(),
            _ => panic!("expected a worker dependency"),
        })
        .collect();
    assert_eq!(runtimes, vec![expected_runtime("m", 0, 16), expected_runtime("m", 1, 16)]);
    assert_ne!(runtimes[0], runtimes[1]);
}

#[test]
fn worker_scanner_looks_into_other_new_expressions() {
    let mut scanner = WorkerScanner::new(Vec::new(), "m".to_string(), output_options(8));
    let wrapped = new_expr(1, 200, ident("Wrapper", 5), vec![arg(Expr::New(new_worker("Worker", "./w.js", 13)))]);
    scanner.visit_expr(&Expr::Other(span(1, 201), vec![Expr::New(wrapped)]));
    assert_eq!(scanner.dependencies.len(), 1);
    assert_eq!(scanner.index, 1);
}

#[test]
fn worker_scanner_ignores_plain_urls() {
    let mut scanner = WorkerScanner::new(Vec::new(), "m".to_string(), output_options(8));
    scanner.visit_expr(&Expr::New(new_url("./a.png", 1)));
    assert!(scanner.dependencies.is_empty());
    assert_eq!(scanner.index, 0);
}

#[test]
fn url_scanner_records_an_asset() {
    let mut scanner = UrlScanner::new(Vec::new());
    let n = new_url("./a.png", 1);
    let outer_span = n.span;
    scanner.visit_new_expr(&n);
    assert_eq!(scanner.dependencies.len(), 1);
    match &scanner.dependencies[0] {
        ModuleDependency::NewUrl(u) => {
            assert_eq!((u.start, u.end), (8, 34));
            assert_eq!(u.url, "./a.png");
            assert_eq!(u.span, Some(outer_span));
        },
        _ => panic!("expected an asset dependency"),
    }
}

#[test]
fn url_scanner_leaves_workers_alone() {
    let mut scanner = UrlScanner::new(Vec::new());
    scanner.visit_new_expr(&new_worker("Worker", "./w.js", 1));
    assert!(scanner.dependencies.is_empty());
}

#[test]
fn url_scanner_looks_into_other_new_expressions() {
    let mut scanner = UrlScanner::new(Vec::new());
    let wrapped = new_expr(1, 200, ident("Image", 5), vec![arg(Expr::New(new_url("./b.png", 11)))]);
    scanner.visit_exprs(&vec![Expr::New(wrapped)]);
    assert_eq!(scanner.dependencies.len(), 1);
}

#[test]
fn url_scanner_does_not_look_into_unmatched_urls() {
    let mut scanner = UrlScanner::new(Vec::new());
    // new URL(x, new URL("./d.png", import.meta.url)): the outer one does not match, and
    // what is inside it is not looked into.
    let inner = new_url("./d.png", 20);
    let outer = new_expr(1, 100, ident("URL", 5), vec![arg(ident("x", 9)), arg(Expr::New(inner))]);
    scanner.visit_new_expr(&outer);
    assert!(scanner.dependencies.is_empty());
}

#[test]
fn url_scanner_needs_import_meta_url() {
    let mut scanner = UrlScanner::new(Vec::new());
    let n = new_expr(1, 40, ident("URL", 5), vec![arg(str_lit("./a.png", 9)), arg(ident("base", 20))]);
    scanner.visit_new_expr(&n);
    assert!(scanner.dependencies.is_empty());
}

#[test]
fn url_scanner_keeps_source_order() {
    let mut scanner = UrlScanner::new(Vec::new());
    let exprs = vec![Expr::New(new_url("./first.png", 1)), Expr::New(new_url("./second.png", 100))];
    scanner.visit_exprs(&exprs);
    let urls: Vec<String> = scanner
        .dependencies
        .iter()
        .map(|d| match d {
            ModuleDependency::NewUrl(u) => u.url.clone(),
            _ => panic!("expected an asset dependency"),
        })
        .collect();
    assert_eq!(urls, vec!["./first.png".to_string(), "./second.png".to_string()]);
}

#[test]
fn span_offsets_are_zero_based() {
    let s = span(5, 9);
    assert_eq!(s.real_lo(), 4);
    assert_eq!(s.real_hi(), 8);
}

#[test]
fn real_spans_are_recognised() {
    let good = Expr::New(new_url("./a.png", 1));
    assert!(spans_are_real(SpanReader::Urls, &good));
    let mut dummy = new_url("./a.png", 1);
    if let Expr::Lit(Lit::Str(s)) = &mut *dummy.args.as_mut().unwrap()[0].expr {
        s.span = span(0, 0);
    }
    let dummy = Expr::New(dummy);
    assert!(!spans_are_real(SpanReader::Urls, &dummy));
    // The worker scanner never reads the spans of a plain `new URL(..)`.
    assert!(spans_are_real(SpanReader::Workers, &dummy));
    let mut dummy_worker = new_worker("Worker", "./w.js", 1);
    if let Expr::New(inner) = &mut *dummy_worker.args.as_mut().unwrap()[0].expr {
        if let Expr::Lit(Lit::Str(s)) = &mut *inner.args.as_mut().unwrap()[0].expr {
            s.span = span(0, 0);
        }
    }
    let dummy_worker = Expr::New(dummy_worker);
    assert!(!spans_are_real(SpanReader::Workers, &dummy_worker));
    assert!(!spans_are_real(SpanReader::Urls, &dummy_worker));
}

#[test]
fn workers_are_counted() {
    let exprs = Expr::Other(
        span(1, 300),
        vec![
            Expr::New(new_worker("Worker", "./a.js", 1)),
            Expr::New(new_url("./b.png", 100)),
            Expr::New(new_worker("SharedWorker", "./c.js", 200)),
        ],
    );
    assert_eq!(rspack_split_chunks::worker_scanner::worker_count(&exprs), Some(2));
}
