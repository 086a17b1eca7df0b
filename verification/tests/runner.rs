//! Whole runs over files held in memory and a server that answers by a
//! function: no file system and no sockets.

use reqrun::cli::{
    begin, list_answer, refuse, report_answer, run_answer, wants_color, Answer, Opening,
};
use reqrun::duration::Duration;
use reqrun::files::TextFile;
use reqrun::http::{
    build_request, connection_failed, scan_response, with_final_url, Exchange, FaultKind, Hop,
    HttpResponse, Progress, StreamEnd,
};
use reqrun::parser::Request;
use reqrun::report::junit;
use reqrun::runner::{
    choose_env, finish_file, list_requests, open_file, private_applies, refuses_save,
    start_request, with_body_file, with_reply, with_saved, EnvChoice, EnvFiles, FileResult,
    FileRun, Options, RequestResult, Saved, Stage, Status,
};
use reqrun::url::Url;
use reqrun::vars::{Table, Vars};
use std::cell::RefCell;
use std::collections::HashMap;

const NOW: u64 = 1_700_000_000;

// -------------------------------------------------------------- world ----

/// Files by name, all in one directory, and the requests seen so far.
struct World {
    files: RefCell<HashMap<String, Vec<u8>>>,
    listening: bool,
    seen: RefCell<Vec<String>>,
}

impl World {
    fn new() -> World {
        World {
            files: RefCell::new(HashMap::new()),
            listening: true,
            seen: RefCell::new(Vec::new()),
        }
    }

    fn write(&self, name: &str, content: &str) -> String {
        self.files
            .borrow_mut()
            .insert(name.to_string(), content.as_bytes().to_vec());
        name.to_string()
    }

    fn read(&self, name: &str) -> Result<Vec<u8>, String> {
        self.files
            .borrow()
            .get(name)
            .cloned()
            .ok_or_else(|| "No such file or directory (os error 2)".to_string())
    }

    fn text(&self, name: &str) -> TextFile {
        TextFile {
            path: name.to_string(),
            content: self.read(name).map(|b| String::from_utf8(b).unwrap()),
        }
    }

    fn has(&self, name: &str) -> bool {
        self.files.borrow().contains_key(name)
    }

    fn env_files(&self, options: &Options) -> Option<EnvFiles> {
        let sibling = "http-client.env.json";
        let name = match choose_env(options, self.has(sibling)) {
            EnvChoice::Nothing => return None,
            EnvChoice::Given(path) => path,
            EnvChoice::Sibling => sibling.to_string(),
        };
        let private = "http-client.private.env.json";
        Some(EnvFiles {
            public: self.text(&name),
            private: if private_applies(name == private, self.has(private)) {
                Some(self.text(private))
            } else {
                None
            },
        })
    }

    fn send(
        &self,
        method: &str,
        target: Url,
        headers: &[(String, String)],
        body: Vec<u8>,
        no_redirect: bool,
    ) -> Result<HttpResponse, String> {
        let mut exchange = Exchange::new(method, &target, body);
        loop {
            let response =
                self.send_once(&exchange.method, &exchange.target, headers, &exchange.body)?;
            match exchange.answer(response, no_redirect) {
                Hop::Finish(r) => return Ok(r),
                Hop::Fail(e) => return Err(e),
                Hop::Send(next) => exchange = next,
            }
        }
    }

    fn send_once(
        &self,
        method: &str,
        target: &Url,
        headers: &[(String, String)],
        body: &[u8],
    ) -> Result<HttpResponse, String> {
        if !self.listening {
            return Err(connection_failed(
                reqrun::http::Stage::Connect,
                target,
                FaultKind::Other,
                "Connection refused (os error 111)",
            ));
        }
        let wire = build_request(method, target, headers, body);
        let head_end = wire.windows(4).position(|w| w == b"\r\n\r\n").unwrap();
        let head = String::from_utf8_lossy(&wire[..head_end]).into_owned();
        let request_line = head.lines().next().unwrap_or("").to_string();
        let auth = head
            .lines()
            .find_map(|l| l.strip_prefix("Authorization: "))
            .unwrap_or("")
            .to_string();
        self.seen.borrow_mut().push(request_line.clone());
        let reply = route(&request_line, &auth, &wire[head_end + 4..]);
        // The reply comes in pieces; the answer must not depend on where they
        // are cut.
        let bytes = reply.as_bytes();
        let mut upto = 0;
        loop {
            match scan_response(&bytes[..upto], &StreamEnd::Open, method == "HEAD") {
                Progress::NeedMore if upto < bytes.len() => upto = (upto + 7).min(bytes.len()),
                Progress::NeedMore => panic!("reply cut short: {reply}"),
                Progress::Done(r) => return Ok(with_final_url(r, target)),
                Progress::Failed(e) => {
                    return Err(connection_failed(
                        reqrun::http::Stage::Read,
                        target,
                        FaultKind::Other,
                        &e,
                    ))
                }
            }
        }
    }
}

fn route(request_line: &str, auth: &str, body: &[u8]) -> String {
    let respond = |status: &str, ctype: &str, body: &str| {
        format!(
            "HTTP/1.1 {status}\r\nContent-Type: {ctype}\r\nContent-Length: {}\r\nConnection: close\r\n\r\n{body}",
            body.len()
        )
    };
    match request_line {
        "GET /health HTTP/1.1" => respond("200 OK", "application/json", r#"{"status":"ok","version":"2.4.1"}"#),
        "POST /login HTTP/1.1" => {
            if String::from_utf8_lossy(body).contains("\"admin\"") {
                respond("200 OK", "application/json", r#"{"token":"tok-123","ttl":3600}"#)
            } else {
                respond("401 Unauthorized", "application/json", r#"{"error":"bad credentials"}"#)
            }
        }
        "GET /me HTTP/1.1" => {
            if auth == "Bearer tok-123" {
                respond("200 OK", "application/json", r#"{"user":"amy","roles":["admin"]}"#)
            } else {
                respond("401 Unauthorized", "application/json", r#"{"error":"missing token"}"#)
            }
        }
        "GET /redirect HTTP/1.1" => {
            "HTTP/1.1 302 Found\r\nLocation: /health\r\nContent-Length: 0\r\nConnection: close\r\n\r\n".to_string()
        }
        "GET /loop HTTP/1.1" => {
            "HTTP/1.1 302 Found\r\nLocation: /loop\r\nContent-Length: 0\r\n\r\n".to_string()
        }
        _ => respond("404 Not Found", "text/plain", "no such route"),
    }
}

// ------------------------------------------------------------- driver ----

fn run_request(
    world: &World,
    request: &Request,
    name: String,
    vars: &mut Vars,
    options: &Options,
    globals: &mut Table,
) -> RequestResult {
    let mut stage = start_request(request, name, vars, options);
    loop {
        stage = match stage {
            Stage::NeedBody {
                at,
                path,
                substitute,
            } => {
                let content = world.read(&path);
                with_body_file(at, substitute, request, &path, content, vars, options)
            }
            Stage::NeedResponse { at, body } => {
                let reply = world.send(
                    &request.method,
                    at.target.clone(),
                    &at.headers,
                    body,
                    request.no_redirect,
                );
                with_reply(
                    at,
                    request,
                    reply,
                    Duration::from_millis(12),
                    options,
                    vars,
                    globals,
                )
            }
            Stage::NeedSave {
                result,
                response,
                path,
                force,
            } => {
                let saved = if refuses_save(world.has(&path), force) {
                    Saved::Exists
                } else {
                    world
                        .files
                        .borrow_mut()
                        .insert(path.clone(), response.body.clone());
                    Saved::Written
                };
                return with_saved(
                    result, request, &response, &path, saved, options, vars, globals,
                );
            }
            Stage::Done(result) => return result,
        }
    }
}

fn run_files(
    world: &World,
    paths: &[String],
    options: &Options,
) -> Result<Vec<FileResult>, String> {
    let mut globals = Table::new();
    let mut abort = false;
    let mut out = Vec::new();
    for path in paths {
        let env = world.env_files(options);
        let (file, mut vars) = open_file(
            &world.text(path),
            &env,
            options,
            &globals,
            Vars::fixed(7, NOW),
        )?;
        let mut run = FileRun::new(abort);
        while let Some(name) = run.advance(&file.requests, options) {
            let request = &file.requests[run.index];
            let result = run_request(world, request, name, &mut vars, options, &mut globals);
            run.record(result, options);
        }
        abort = run.abort;
        out.push(finish_file(path, run.results, options)?);
    }
    Ok(out)
}

fn reqrun(world: &World, args: &[&str]) -> Answer {
    let args: Vec<String> = args.iter().map(|s| s.to_string()).collect();
    let cli = match begin(&args) {
        Opening::Say(answer) => return answer,
        Opening::List(cli) => {
            let files: Vec<TextFile> = cli.files.iter().map(|f| world.text(f)).collect();
            return list_answer(list_requests(&files));
        }
        Opening::Run(cli) => cli,
    };
    let results = match run_files(world, &cli.files, &cli.options) {
        Ok(results) => results,
        Err(e) => return refuse(&e),
    };
    if let Some(path) = &cli.report_path {
        world.write(path, &junit(&results));
    }
    run_answer(&results, &cli, wants_color(cli.no_color, true, false))
}

fn dry() -> Options {
    Options {
        dry_run: true,
        ..Options::default()
    }
}

// ------------------------------------------------------- library runs ----

#[test]
fn dry_run_renders_the_wire_request() {
    let world = World::new();
    let f = world.write(
        "a.http",
        "POST http://example.test/login\nContent-Type: application/json\n\n{\"u\":1}\n",
    );
    let results = run_files(&world, &[f], &dry()).unwrap();
    let rendered = results[0].results[0].rendered.as_ref().unwrap();
    assert!(rendered.starts_with("POST /login HTTP/1.1\r\n"));
    assert!(rendered.contains("Host: example.test\r\n"));
    assert!(rendered.contains("Content-Type: application/json\r\n"));
    assert!(rendered.ends_with("{\"u\":1}"));
    assert!(world.seen.borrow().is_empty());
}

#[test]
fn file_variables_flow_into_urls_headers_and_bodies() {
    let world = World::new();
    let f = world.write(
        "a.http",
        "@host = example.test\n\
         @tok = t-99\n\
         POST http://{{host}}/x\n\
         Authorization: Bearer {{tok}}\n\
         \n\
         token={{tok}}\n",
    );
    let results = run_files(&world, &[f], &dry()).unwrap();
    let rendered = results[0].results[0].rendered.as_ref().unwrap();
    assert!(rendered.contains("Authorization: Bearer t-99"));
    assert!(rendered.ends_with("token=t-99"));
}

#[test]
fn cli_var_overrides_file_variable() {
    let world = World::new();
    let f = world.write("a.http", "@who = file\nGET http://example.test/{{who}}\n");
    let mut options = dry();
    options
        .overrides
        .push(("who".to_string(), "cli".to_string()));
    let results = run_files(&world, &[f], &options).unwrap();
    assert_eq!(results[0].results[0].url, "http://example.test/cli");
}

#[test]
fn request_filter_selects_by_name() {
    let world = World::new();
    let f = world.write(
        "a.http",
        "# @name one\nGET http://example.test/1\n###\n# @name two\nGET http://example.test/2\n",
    );
    let mut options = dry();
    options.filter.push("two".to_string());
    let results = run_files(&world, &[f.clone()], &options).unwrap();
    assert_eq!(results[0].results.len(), 1);
    assert_eq!(results[0].results[0].name, "two");

    options.filter = vec!["missing".to_string()];
    let err = run_files(&world, &[f], &options).unwrap_err();
    assert!(err.contains("no request matches"), "got: {err}");
}

#[test]
fn body_from_file_is_read_and_optionally_substituted() {
    let world = World::new();
    world.write("payload.json", "{\"v\": \"{{version}}\"}");
    let raw = world.write(
        "raw.http",
        "@version = 9\nPOST http://example.test/a\n\n< payload.json\n",
    );
    let sub = world.write(
        "sub.http",
        "@version = 9\nPOST http://example.test/a\n\n<@ payload.json\n",
    );
    let results = run_files(&world, &[raw, sub], &dry()).unwrap();
    let raw_body = results[0].results[0].rendered.as_ref().unwrap();
    assert!(
        raw_body.ends_with("{\"v\": \"{{version}}\"}"),
        "raw form must not substitute"
    );
    let sub_body = results[1].results[0].rendered.as_ref().unwrap();
    assert!(sub_body.ends_with("{\"v\": \"9\"}"), "<@ must substitute");
}

#[test]
fn request_level_errors_carry_context() {
    let world = World::new();
    // A missing body file marks just that request as errored instead of
    // aborting the whole run.
    let f = world.write(
        "a.http",
        "POST http://example.test/a\n\n< gone.json\n###\nGET http://example.test/{{later}}\n",
    );
    let results = run_files(&world, &[f], &dry()).unwrap();
    let r = &results[0].results[0];
    assert_eq!(r.status, Status::Error);
    assert!(r.error.as_ref().unwrap().contains("gone.json"));
    // Dry-run leaves handler-captured variables literal instead of failing.
    let r = &results[0].results[1];
    assert_eq!(r.status, Status::Passed);
    assert!(r.url.contains("{{later}}"));

    // A real run resolves strictly: undefined variables error before any
    // socket is opened.
    let g = world.write("b.http", "GET http://example.test/{{nope}}\n");
    let results = run_files(&world, &[g], &Options::default()).unwrap();
    let r = &results[0].results[0];
    assert_eq!(r.status, Status::Error);
    assert!(r.error.as_ref().unwrap().contains("nope"));
    assert!(world.seen.borrow().is_empty());
}

#[test]
fn setup_errors_abort_the_run() {
    let world = World::new();
    let bad = world.write("bad.http", "GET http://example.test/a\nBROKEN\n");
    let err = run_files(&world, &[bad], &dry()).unwrap_err();
    assert!(
        err.contains("bad.http") && err.contains("line 2"),
        "got: {err}"
    );
    let empty = world.write("empty.http", "# only a comment\n");
    let err = run_files(&world, &[empty], &dry()).unwrap_err();
    assert!(err.contains("no requests"), "got: {err}");
    let err = run_files(&world, &["absent.http".to_string()], &dry()).unwrap_err();
    assert_eq!(
        err,
        "cannot read absent.http: No such file or directory (os error 2)"
    );
}

#[test]
fn env_file_discovery_and_selection() {
    let world = World::new();
    let f = world.write("a.http", "GET {{base}}/health\n");
    let mut options = dry();
    options.env = Some("prod".to_string());
    // No env file next to the .http file yet: a clear setup error.
    let err = run_files(&world, &[f.clone()], &options).unwrap_err();
    assert!(err.contains("http-client.env.json"), "got: {err}");
    world.write(
        "http-client.env.json",
        r#"{"dev": {"base": "http://127.0.0.1:1"}, "prod": {"base": "http://example.test"}}"#,
    );
    let results = run_files(&world, &[f], &options).unwrap();
    assert_eq!(results[0].results[0].url, "http://example.test/health");
}

#[test]
fn https_url_is_an_error_not_a_crash() {
    let world = World::new();
    let f = world.write("a.http", "GET https://example.test/\n");
    let mut options = dry();
    options.dry_run = false; // URL parsing happens before any connect
    options.timeout = Duration::from_millis(50);
    let results = run_files(&world, &[f], &options).unwrap();
    let r = &results[0].results[0];
    assert_eq!(r.status, Status::Error);
    assert!(r.error.as_ref().unwrap().contains("v0.1.0"));
}

#[test]
fn list_requests_reports_names_and_methods() {
    let world = World::new();
    let f = world.write(
        "a.http",
        "# @name login\nPOST http://example.test/l\n###\nGET http://example.test/x\n",
    );
    let listing = list_requests(&[world.text(&f)]).unwrap();
    assert_eq!(listing[0].1, vec!["login POST", "request #2 GET"]);
}

// ------------------------------------------------------- command runs ----

const PORT: u16 = 39642;

#[test]
fn passing_file_exits_zero_with_pass_report() {
    let port = PORT;
    let world = World::new();
    let file = world.write(
        "health.http",
        &format!(
            "# @name health\n\
             GET http://127.0.0.1:{port}/health\n\
             Accept: application/json\n\
             \n\
             > {{%\n\
             \x20 client.test(\"service is healthy\", function () {{\n\
             \x20   client.assert(response.status === 200, \"status\");\n\
             \x20   client.assert(response.body.status === 'ok', \"body\");\n\
             \x20 }});\n\
             %}}\n"
        ),
    );
    let out = reqrun(&world, &[&file]);
    let text = &out.stdout;
    assert_eq!(out.code, 0, "stdout: {text}\nstderr: {}", out.stderr);
    assert!(text.contains("PASS  health"), "got: {text}");
    assert!(text.contains("[2/2 checks]"), "got: {text}");
    assert!(
        text.contains("1 request(s): 1 passed, 0 failed — 2 check(s)"),
        "got: {text}"
    );
}

#[test]
fn failing_assertion_exits_one_with_details() {
    let port = PORT;
    let world = World::new();
    let file = world.write(
        "wrong.http",
        &format!(
            "GET http://127.0.0.1:{port}/health\n\n> {{% client.assert(response.body.version === '9.9.9', \"version pinned\"); %}}\n"
        ),
    );
    let out = reqrun(&world, &[&file]);
    assert_eq!(out.code, 1);
    let text = out.stdout;
    assert!(text.contains("FAIL"), "got: {text}");
    assert!(text.contains("version pinned"), "got: {text}");
    assert!(
        text.contains("response.body.version === '9.9.9'"),
        "got: {text}"
    );
}

#[test]
fn token_captured_by_global_set_chains_into_next_request() {
    let port = PORT;
    let world = World::new();
    let file = world.write(
        "flow.http",
        &format!(
            "### login\n\
             POST http://127.0.0.1:{port}/login\n\
             Content-Type: application/json\n\
             \n\
             {{\"user\": \"admin\"}}\n\
             \n\
             > {{% client.assert(response.status === 200); client.global.set(\"token\", response.body.token); %}}\n\
             \n\
             ### whoami\n\
             GET http://127.0.0.1:{port}/me\n\
             Authorization: Bearer {{{{token}}}}\n\
             \n\
             > {{% client.assert(response.body.user === 'amy'); client.assert(response.body.roles.includes('admin')); %}}\n"
        ),
    );
    let out = reqrun(&world, &[&file]);
    let text = &out.stdout;
    assert_eq!(out.code, 0, "stdout: {text}\nstderr: {}", out.stderr);
    assert!(text.contains("PASS  login"), "got: {text}");
    assert!(text.contains("PASS  whoami"), "got: {text}");
    assert!(text.contains("2 request(s): 2 passed"), "got: {text}");
}

#[test]
fn junit_report_is_written_for_ci() {
    let port = PORT;
    let world = World::new();
    let file = world.write(
        "mix.http",
        &format!(
            "# @name ok\n\
             GET http://127.0.0.1:{port}/health\n\
             \n\
             > {{% client.assert(response.status === 200); %}}\n\
             \n\
             ### broken\n\
             GET http://127.0.0.1:{port}/health\n\
             \n\
             > {{% client.assert(response.status === 500, \"expected an error page\"); %}}\n"
        ),
    );
    let out = reqrun(&world, &[&file, "--report", "report.xml"]);
    assert_eq!(out.code, 1);
    let xml = String::from_utf8(world.read("report.xml").unwrap()).unwrap();
    assert!(
        xml.contains("tests=\"2\" failures=\"1\" errors=\"0\""),
        "got: {xml}"
    );
    assert!(xml.contains("<testcase name=\"ok\""), "got: {xml}");
    assert!(
        xml.contains("<failure message=\"expected an error page"),
        "got: {xml}"
    );
}

#[test]
fn redirects_follow_by_default_and_stop_with_no_redirect() {
    let port = PORT;
    let world = World::new();
    let file = world.write(
        "redir.http",
        &format!(
            "# @name followed\n\
             GET http://127.0.0.1:{port}/redirect\n\
             \n\
             > {{% client.assert(response.status === 200); client.assert(response.body.status === 'ok'); %}}\n\
             \n\
             ###\n\
             # @name raw\n\
             # @no-redirect\n\
             GET http://127.0.0.1:{port}/redirect\n\
             \n\
             > {{% client.assert(response.status === 302); client.assert(response.headers.valueOf('Location') === '/health'); %}}\n"
        ),
    );
    let out = reqrun(&world, &[&file]);
    let text = &out.stdout;
    assert_eq!(out.code, 0, "stdout: {text}\nstderr: {}", out.stderr);
    assert!(
        text.contains("PASS  followed") && text.contains("PASS  raw"),
        "got: {text}"
    );
}

#[test]
fn strict_mode_fails_a_404_and_fail_fast_skips_the_rest() {
    let port = PORT;
    let world = World::new();
    let file = world.write(
        "strict.http",
        &format!(
            "# @name gone\n\
             GET http://127.0.0.1:{port}/nope\n\
             ###\n\
             # @name never-runs\n\
             GET http://127.0.0.1:{port}/health\n"
        ),
    );
    // Without --strict both pass (no assertions, responses received).
    let out = reqrun(&world, &[&file]);
    assert_eq!(out.code, 0, "stderr: {}", out.stderr);
    // With --strict + --fail-fast the 404 fails and the rest is skipped.
    let out = reqrun(&world, &[&file, "--strict", "--fail-fast"]);
    assert_eq!(out.code, 1);
    let text = out.stdout;
    assert!(text.contains("FAIL  gone"), "got: {text}");
    assert!(text.contains("SKIP  never-runs"), "got: {text}");
    assert!(text.contains("404"), "got: {text}");
}

#[test]
fn connection_refused_is_an_error_exit_one() {
    let mut world = World::new();
    world.listening = false;
    let file = world.write("down.http", "GET http://127.0.0.1:1/health\n");
    let out = reqrun(&world, &[&file, "--timeout", "2s"]);
    assert_eq!(out.code, 1);
    let text = out.stdout;
    assert!(text.contains("ERROR"), "got: {text}");
    assert!(text.contains("cannot connect"), "got: {text}");
}

#[test]
fn version_help_and_usage_errors() {
    let world = World::new();
    let out = reqrun(&world, &["--version"]);
    assert_eq!(out.stdout.trim(), format!("reqrun {}", "0.1.0"));
    assert_eq!(out.code, 0);
    let out = reqrun(&world, &["--help"]);
    assert!(out.stdout.contains("USAGE:"));
    assert!(out.stdout.contains("--report"));
    assert_eq!(out.code, 0);

    let out = reqrun(&world, &["--frobnicate"]);
    assert_eq!(out.code, 2);
    assert!(out.stderr.contains("--frobnicate"));

    let file = world.write("bad.http", "GET http://example.test/\nNOT A HEADER\n");
    let out = reqrun(&world, &[&file]);
    assert_eq!(out.code, 2);
    assert!(out.stderr.contains("line 2"), "got: {}", out.stderr);
}

#[test]
fn list_and_dry_run_need_no_server() {
    let mut world = World::new();
    world.listening = false;
    let file = world.write(
        "api.http",
        "@base = http://example.test\n\
         # @name ping\n\
         GET {{base}}/ping\n\
         ###\n\
         # @name create\n\
         POST {{base}}/items\n\
         Content-Type: application/json\n\
         \n\
         {\"name\": \"widget\"}\n",
    );
    let out = reqrun(&world, &["--list", &file]);
    assert_eq!(out.code, 0);
    let text = out.stdout;
    assert!(
        text.contains("ping GET") && text.contains("create POST"),
        "got: {text}"
    );
    assert_eq!(text, "api.http\n  ping GET\n  create POST\n");

    let out = reqrun(&world, &["--dry-run", &file]);
    assert_eq!(out.code, 0);
    let text = out.stdout;
    assert!(text.contains("POST /items HTTP/1.1"), "got: {text}");
    assert!(text.contains("Host: example.test"), "got: {text}");
    assert!(text.contains("{\"name\": \"widget\"}"), "got: {text}");
}

#[test]
fn environment_selection_via_env_file() {
    let port = PORT;
    let world = World::new();
    world.write(
        "http-client.env.json",
        &format!(
            r#"{{"local": {{"base": "http://127.0.0.1:{port}"}}, "prod": {{"base": "http://example.test"}}}}"#
        ),
    );
    let file = world.write(
        "env.http",
        "GET {{base}}/health\n\n> {% client.assert(response.body.status === 'ok'); %}\n",
    );
    let out = reqrun(&world, &[&file, "--env", "local"]);
    assert_eq!(out.code, 0, "stderr: {}", out.stderr);

    // Selecting a missing environment is a setup error (exit 2) that lists
    // what is available.
    let out = reqrun(&world, &[&file, "--env", "staging"]);
    assert_eq!(out.code, 2);
    assert!(out.stderr.contains("local, prod"), "got: {}", out.stderr);
}

// ---------------------------------------------------------- more runs ----

#[test]
fn captured_globals_reach_later_files_but_overrides_hide_them() {
    let port = PORT;
    let world = World::new();
    let login = world.write(
        "login.http",
        &format!(
            "POST http://127.0.0.1:{port}/login\n\n{{\"user\": \"admin\"}}\n\n> {{% client.global.set(\"token\", response.body.token); %}}\n"
        ),
    );
    let me = world.write(
        "me.http",
        &format!(
            "GET http://127.0.0.1:{port}/me\nAuthorization: Bearer {{{{token}}}}\n\n> {{% client.assert(response.status === 200); %}}\n"
        ),
    );
    assert_eq!(reqrun(&world, &[&login, &me]).code, 0);
    // On its own the second file has no token.
    let out = reqrun(&world, &[&me]);
    assert_eq!(out.code, 1);
    assert!(out.stdout.contains("token"), "got: {}", out.stdout);
    let out = reqrun(&world, &[&login, &me, "--var", "token=wrong"]);
    assert_eq!(out.code, 1);
    assert!(out.stdout.contains("401"), "got: {}", out.stdout);
}

#[test]
fn strict_mode_also_judges_handlers_without_assertions() {
    let port = PORT;
    let world = World::new();
    let file = world.write(
        "log.http",
        &format!(
            "# @name gone\nGET http://127.0.0.1:{port}/nope\n\n> {{% client.log(response.status); %}}\n###\n# @name checked\nGET http://127.0.0.1:{port}/nope\n\n> {{% client.assert(response.status === 404); %}}\n"
        ),
    );
    assert_eq!(reqrun(&world, &[&file]).code, 0);
    let out = reqrun(&world, &[&file, "--strict"]);
    assert_eq!(out.code, 1);
    assert!(out.stdout.contains("FAIL  gone"), "got: {}", out.stdout);
    assert!(
        out.stdout
            .contains("strict mode: expected status < 400, got 404 Not Found"),
        "got: {}",
        out.stdout
    );
    assert!(out.stdout.contains("PASS  checked"), "got: {}", out.stdout);
}

#[test]
fn responses_are_saved_once_unless_forced() {
    let port = PORT;
    let world = World::new();
    let once = world.write(
        "once.http",
        &format!("GET http://127.0.0.1:{port}/health\n\n>> out.json\n"),
    );
    let again = world.write(
        "again.http",
        &format!("GET http://127.0.0.1:{port}/nope\n\n>>! out.json\n"),
    );
    assert_eq!(reqrun(&world, &[&once]).code, 0);
    assert_eq!(
        world.read("out.json").unwrap(),
        br#"{"status":"ok","version":"2.4.1"}"#
    );
    let out = reqrun(&world, &[&once]);
    assert_eq!(out.code, 1);
    assert!(
        out.stdout
            .contains("refusing to overwrite out.json (use '>>!' to force)"),
        "got: {}",
        out.stdout
    );
    assert_eq!(reqrun(&world, &[&again]).code, 0);
    assert_eq!(world.read("out.json").unwrap(), b"no such route");
}

#[test]
fn save_failures_are_request_errors() {
    let port = PORT;
    let text = format!("GET http://127.0.0.1:{port}/health\n\n>> deep/out.json\n");
    let cases = vec![
        (
            Saved::Exists,
            "refusing to overwrite deep/out.json (use '>>!' to force)",
        ),
        (
            Saved::NoDirectory {
                dir: "deep".to_string(),
                detail: "read-only".to_string(),
            },
            "cannot create deep: read-only",
        ),
        (
            Saved::NotWritten {
                detail: "disk full".to_string(),
            },
            "cannot write deep/out.json: disk full",
        ),
    ];
    for (saved, expected) in cases {
        let world = World::new();
        let file = reqrun::parser::parse(&text).unwrap();
        let request = &file.requests[0];
        let options = Options::default();
        let mut vars = Vars::fixed(1, NOW);
        let mut globals = Table::new();
        let stage = start_request(request, "r".to_string(), &mut vars, &options);
        let Stage::NeedResponse { at, body } = stage else {
            panic!("expected a request to send");
        };
        let target = at.target.clone();
        let reply = world.send("GET", target, &at.headers, body, false);
        let stage = with_reply(
            at,
            request,
            reply,
            Duration::zero(),
            &options,
            &mut vars,
            &mut globals,
        );
        let Stage::NeedSave {
            result,
            response,
            path,
            force,
        } = stage
        else {
            panic!("expected a body to save");
        };
        assert_eq!(path, "deep/out.json");
        assert!(!force);
        let result = with_saved(
            result,
            request,
            &response,
            &path,
            saved,
            &options,
            &mut vars,
            &mut globals,
        );
        assert_eq!(result.status, Status::Error);
        assert_eq!(result.error.as_deref(), Some(expected));
        assert_eq!(result.http_status, Some(200));
    }
    assert!(refuses_save(true, false));
    assert!(!refuses_save(true, true));
    assert!(!refuses_save(false, false));
}

#[test]
fn substituted_body_files_must_be_text() {
    let world = World::new();
    world
        .files
        .borrow_mut()
        .insert("raw.bin".to_string(), vec![0x7b, 0xff, 0xfe]);
    let file = world.write("a.http", "POST http://example.test/a\n\n<@ raw.bin\n");
    let results = run_files(&world, &[file], &dry()).unwrap();
    assert_eq!(
        results[0].results[0].error.as_deref(),
        Some("body file raw.bin is not UTF-8; use '<' instead of '<@'")
    );
    // Sent verbatim the bytes may be anything; shown they are decoded.
    let file = world.write("b.http", "POST http://example.test/a\n\n< raw.bin\n");
    let results = run_files(&world, &[file], &dry()).unwrap();
    let rendered = results[0].results[0].rendered.as_ref().unwrap();
    assert!(rendered.contains("Content-Length: 3\r\n"));
    assert!(rendered.ends_with("\r\n\r\n{\u{fffd}\u{fffd}"));
}

#[test]
fn script_errors_name_the_handler_line() {
    let port = PORT;
    let world = World::new();
    let file = world.write(
        "js.http",
        &format!("GET http://127.0.0.1:{port}/health\n\n> {{% var x = 1; %}}\n"),
    );
    let results = run_files(&world, &[file], &Options::default()).unwrap();
    let r = &results[0].results[0];
    assert_eq!(r.status, Status::Error);
    assert!(
        r.error
            .as_ref()
            .unwrap()
            .starts_with("response handler (line 3): "),
        "got: {:?}",
        r.error
    );
    assert_eq!(r.http_status, Some(200));
    assert_eq!(r.duration, Duration::from_millis(12));
}

#[test]
fn redirect_loops_end() {
    let port = PORT;
    let world = World::new();
    let file = world.write("loop.http", &format!("GET http://127.0.0.1:{port}/loop\n"));
    let results = run_files(&world, &[file], &Options::default()).unwrap();
    let r = &results[0].results[0];
    assert_eq!(r.status, Status::Error);
    assert_eq!(r.error.as_deref(), Some("more than 10 redirects"));
    assert_eq!(world.seen.borrow().len(), 11);
}

#[test]
fn fail_fast_reaches_later_files() {
    let port = PORT;
    let world = World::new();
    let first = world.write(
        "first.http",
        &format!("GET http://127.0.0.1:{port}/health\n\n> {{% client.assert(false); %}}\n"),
    );
    let second = world.write(
        "second.http",
        &format!("GET http://127.0.0.1:{port}/health\n###\nGET http://127.0.0.1:{port}/me\n"),
    );
    let mut options = Options::default();
    let paths = [first, second];
    let results = run_files(&world, &paths, &options).unwrap();
    assert_eq!(results[0].counts(), (0, 1, 0, 0));
    assert_eq!(results[1].counts(), (2, 0, 0, 0));
    options.fail_fast = true;
    world.seen.borrow_mut().clear();
    let results = run_files(&world, &paths, &options).unwrap();
    assert_eq!(results[0].counts(), (0, 1, 0, 0));
    assert_eq!(results[1].counts(), (0, 0, 0, 2));
    assert_eq!(world.seen.borrow().len(), 1);
    let skipped = &results[1].results[1];
    assert_eq!(skipped.name, "request #2");
    assert_eq!(skipped.url, format!("http://127.0.0.1:{port}/me"));
    assert_eq!(skipped.http_status, None);
}

#[test]
fn a_run_passes_over_requests_that_are_not_selected() {
    let file = reqrun::parser::parse(
        "# @name a\nGET http://h/1\n###\n# @name b\nGET http://h/2\n###\n# @name c\nGET http://h/3\n",
    )
    .unwrap();
    let mut options = Options::default();
    options.filter = vec!["c".to_string(), "a".to_string()];
    let mut run = FileRun::new(false);
    assert_eq!(
        run.advance(&file.requests, &options).as_deref(),
        Some("a")
    );
    assert_eq!(run.index, 0);
    let stage = start_request(
        &file.requests[0],
        "a".to_string(),
        &mut Vars::fixed(3, NOW),
        &dry(),
    );
    let Stage::Done(result) = stage else {
        panic!("a dry run needs nothing");
    };
    run.record(result, &options);
    assert_eq!(
        run.advance(&file.requests, &options).as_deref(),
        Some("c")
    );
    assert_eq!(run.index, 2);
    assert_eq!(run.results.len(), 1);
    run.index = 3;
    assert_eq!(run.advance(&file.requests, &options), None);
}

#[test]
fn nothing_unresolved_is_sent() {
    let world = World::new();
    let cases = [
        ("GET http://127.0.0.1/{{nope}}\n", "undefined variable '{{nope}}'"),
        (
            "GET http://127.0.0.1/\nX-A: {{ nope }}\n",
            "undefined variable '{{nope}}'",
        ),
        (
            "POST http://127.0.0.1/\n\nbody {{nope}}\n",
            "undefined variable '{{nope}}'",
        ),
        (
            "POST http://127.0.0.1/\n\n< {{nope}}.json\n",
            "undefined variable '{{nope}}'",
        ),
        (
            "GET http://127.0.0.1/{{open\n",
            "unclosed '{{' in 'http://127.0.0.1/{{open'",
        ),
        (
            "GET http://127.0.0.1/{{$nope}}\n",
            "unknown dynamic variable '{{$nope}}'",
        ),
    ];
    for (text, message) in cases {
        let file = world.write("a.http", text);
        let results = run_files(&world, &[file], &Options::default()).unwrap();
        let r = &results[0].results[0];
        assert_eq!(r.status, Status::Error, "{text}");
        assert_eq!(r.error.as_deref(), Some(message), "{text}");
        assert_eq!(r.http_status, None);
    }
    assert!(world.seen.borrow().is_empty());
    assert!(reqrun::report::is_countable(&[]));
}

#[test]
fn answers_go_where_they_belong() {
    let world = World::new();
    let file = world.write("a.http", "GET http://example.test/{{x}}\n");
    let out = reqrun(&world, &["--dry-run", &file]);
    assert_eq!(out.code, 0);
    assert!(out.stdout.starts_with("### request #1 (a.http)\nGET /{{x}} HTTP/1.1\r\n"));
    assert!(out.stdout.ends_with("\r\n\r\n\n\n"));
    assert_eq!(out.stderr, "");
    let out = reqrun(&world, &["missing.http"]);
    assert_eq!((out.code, out.stdout.as_str()), (2, ""));
    assert_eq!(
        out.stderr,
        "reqrun: cannot read missing.http: No such file or directory (os error 2)\n"
    );
    let out = reqrun(&world, &["--list", "missing.http"]);
    assert_eq!((out.code, out.stdout.as_str()), (2, ""));
    let out = report_answer("r.xml", "disk full");
    assert_eq!(out.code, 2);
    assert_eq!(out.stderr, "reqrun: cannot write report r.xml: disk full\n");
    assert!(wants_color(false, false, true));
    assert!(!wants_color(true, false, true));
    assert!(!wants_color(false, true, true));
    assert!(!wants_color(false, false, false));
}

#[test]
fn which_environment_files_are_read() {
    let mut options = Options::default();
    assert!(matches!(choose_env(&options, true), EnvChoice::Nothing));
    options.env = Some("dev".to_string());
    assert!(matches!(choose_env(&options, false), EnvChoice::Nothing));
    assert!(matches!(choose_env(&options, true), EnvChoice::Sibling));
    options.env_file = Some("x.json".to_string());
    for sibling in [false, true] {
        match choose_env(&options, sibling) {
            EnvChoice::Given(path) => assert_eq!(path, "x.json"),
            other => panic!("got {other:?}"),
        }
    }
    assert!(private_applies(false, true));
    assert!(!private_applies(true, true));
    assert!(!private_applies(false, false));
}

#[test]
fn a_walk_keeps_file_order_and_stops_at_the_first_failure() {
    let text = "### a\nGET http://h/\n\n### b\nGET http://h/\n\n### c\nGET http://h/\n\n### d\nGET http://h/\n";
    let file = reqrun::parser::parse(text).unwrap();
    let walk = |filter: &[&str], fail_fast: bool, bad: &str, abort: bool| {
        let options = Options {
            filter: filter.iter().map(|s| s.to_string()).collect(),
            fail_fast,
            ..Options::default()
        };
        let mut run = FileRun::new(abort);
        while let Some(name) = run.advance(&file.requests, &options) {
            let stage = start_request(
                &file.requests[run.index],
                name.clone(),
                &mut Vars::fixed(3, NOW),
                &dry(),
            );
            let Stage::Done(result) = stage else {
                panic!("a dry run needs nothing");
            };
            let status = if name == bad { Status::Error } else { Status::Passed };
            run.record(RequestResult { status, ..result }, &options);
        }
        let shown: Vec<(String, Status)> = run
            .results
            .into_iter()
            .map(|r| (r.name, r.status))
            .collect();
        (shown, run.abort)
    };
    let of = |parts: &[(&str, Status)]| {
        parts.iter().map(|(n, s)| (n.to_string(), *s)).collect::<Vec<_>>()
    };
    assert_eq!(
        walk(&["d", "b", "a"], true, "b", false),
        (of(&[("a", Status::Passed), ("b", Status::Error), ("d", Status::Skipped)]), true)
    );
    assert_eq!(
        walk(&[], false, "b", false),
        (of(&[("a", Status::Passed), ("b", Status::Error), ("c", Status::Passed), ("d", Status::Passed)]), false)
    );
    assert_eq!(
        walk(&["c", "a"], true, "b", true),
        (of(&[("a", Status::Skipped), ("c", Status::Skipped)]), true)
    );
}
