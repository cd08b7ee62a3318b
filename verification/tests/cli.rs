use tk_mdpos::cli::{command_line, Command, USAGE};
use tk_mdpos::page::Output;

fn cmd(args: &[&str]) -> Result<Command, String> {
    let v: Vec<String> = args.iter().map(|s| s.to_string()).collect();
    command_line(&v)
}

#[test]
fn the_last_output_flag_wins() {
    assert_eq!(
        cmd(&["--html", "--preview", "r.tmpl"]),
        Ok(Command::Once {
            path: "r.tmpl".into(),
            output: Output::Preview,
            out: None
        })
    );
    assert_eq!(
        cmd(&["-p", "--html", "-"]),
        Ok(Command::Once {
            path: "-".into(),
            output: Output::Html,
            out: None
        })
    );
}

#[test]
fn help_stops_reading() {
    assert_eq!(cmd(&["-h", "--bogus"]), Ok(Command::Help));
    assert!(USAGE.starts_with("mdpos — render a receipt template"));
}

#[test]
fn refusals_say_what_was_wrong_and_show_the_usage() {
    assert_eq!(cmd(&[]), Err(format!("no template given\n\n{}", USAGE)));
    assert_eq!(cmd(&["a", "b"]), Err(format!("expected one template file\n\n{}", USAGE)));
    assert_eq!(cmd(&["r", "-o"]), Err(format!("-o needs a filename\n\n{}", USAGE)));
    assert_eq!(cmd(&["--bogus", "r"]), Err(format!("unknown option `--bogus`\n\n{}", USAGE)));
}

#[test]
fn watching_needs_a_file_a_preview_and_for_html_an_output() {
    assert_eq!(cmd(&["--watch", "-p", "-"]), Err("--watch needs a file to watch, not stdin".into()));
    assert_eq!(
        cmd(&["-w", "r"]),
        Err("--watch applies to --preview or --html, not to byte output".into())
    );
    assert!(cmd(&["--html", "-w", "r"]).unwrap_err().starts_with("--html --watch needs -o <file>"));
    assert_eq!(
        cmd(&["--html", "-w", "r", "-o", "p.html"]),
        Ok(Command::Watch {
            path: "r".into(),
            output: Output::Html,
            out: Some("p.html".into())
        })
    );
    assert_eq!(
        cmd(&["--preview", "--watch", "r"]),
        Ok(Command::Watch {
            path: "r".into(),
            output: Output::Preview,
            out: None
        })
    );
}
