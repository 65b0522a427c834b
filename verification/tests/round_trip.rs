use frump::parser::{parse, serialize};
use frump::FrumpDoc;

struct Rng(u64);

impl Rng {
    fn next(&mut self) -> u64 {
        self.0 = self.0.wrapping_mul(6364136223846793005).wrapping_add(1442695040888963407);
        self.0 >> 33
    }

    fn below(&mut self, n: usize) -> usize {
        (self.next() % n as u64) as usize
    }
}

const LINES: &[&str] = &[
    "## Team",
    "## team members",
    "## Tasks",
    "  ## TASKS  ",
    "## Other",
    "### Task 1 - a",
    "### Bug 2",
    "### Bug 2 -",
    "### Bug 2 - ",
    "### Bug 2 ",
    "### Task 7 -  \t",
    "### T 3 - - s",
    "### Feature 44 -  wide  ",
    "### ### 5 x",
    "### Chore\t6\ttabbed",
    "* Ann <a@b> - r",
    "* Ann <a@b> -",
    "- * Bob <b@c>",
    "* - <x@y>",
    "* -\tx <q@w>",
    "- Cy<c@d>>e - - f",
    "* <e@f>",
    "* no address",
    "Status: open",
    "Status:",
    "Assigned To:  Ann ",
    "Key: v\r",
    "lower: not a key",
    "text",
    "  indented ",
    "x\r",
    "\r",
    "",
    " ",
    "# Title",
    "a: b: c",
    "### ",
    "###",
];

fn random_text(rng: &mut Rng) -> String {
    let mut text = String::new();
    let n = rng.below(14);
    for _ in 0..n {
        text.push_str(LINES[rng.below(LINES.len())]);
        match rng.below(8) {
            0 => text.push_str("\r\n"),
            1 => {}
            _ => text.push('\n'),
        }
    }
    text
}

fn begins_like_bullet(name: &str) -> bool {
    let named = format!("{} ", name);
    named.starts_with("* ") || named.starts_with("- ")
}

fn reads_back(doc: &FrumpDoc) -> bool {
    doc.team.members().iter().all(|m| !begins_like_bullet(&m.name))
        && doc
            .tasks
            .tasks()
            .iter()
            .all(|t| t.body.split('\n').all(|line| !line.ends_with('\r')))
}

fn same_team_and_tasks(a: &FrumpDoc, b: &FrumpDoc) -> bool {
    a.team.members() == b.team.members()
        && a.tasks.len() == b.tasks.len()
        && a.tasks.tasks().iter().zip(b.tasks.tasks().iter()).all(|(x, y)| {
            x.id == y.id
                && x.task_type == y.task_type
                && x.subject == y.subject
                && x.body == y.body
                && x.properties == y.properties
        })
}

#[test]
fn written_documents_read_back_exactly_when_nothing_stands_in_the_way() {
    let mut rng = Rng(7);
    let mut parsed = 0;
    let mut came_back = 0;
    let mut did_not = 0;
    for _ in 0..20000 {
        let text = random_text(&mut rng);
        let doc = match parse(&text) {
            Ok(doc) => doc,
            Err(_) => continue,
        };
        parsed += 1;
        let written = serialize(&doc);
        if reads_back(&doc) {
            let again = parse(&written).unwrap();
            assert!(same_team_and_tasks(&doc, &again), "{:?}", text);
            came_back += 1;
        } else {
            match parse(&written) {
                Ok(again) => assert!(!same_team_and_tasks(&doc, &again), "{:?}", text),
                Err(_) => {}
            }
            did_not += 1;
        }
    }
    assert!(parsed > 1000);
    assert!(came_back > 500);
    assert!(did_not > 100);
}

#[test]
fn what_read_back_once_reads_back_again() {
    let mut rng = Rng(99);
    for _ in 0..5000 {
        let text = random_text(&mut rng);
        if let Ok(doc) = parse(&text) {
            if !reads_back(&doc) {
                continue;
            }
            let once = parse(&serialize(&doc)).unwrap();
            assert!(reads_back(&once), "{:?}", text);
            let twice = parse(&serialize(&once)).unwrap();
            assert!(same_team_and_tasks(&once, &twice), "{:?}", text);
        }
    }
}

#[test]
fn the_header_loses_one_carriage_return_a_line() {
    let doc = parse("a\r\r\r\nb\r\n## Tasks\n").unwrap();
    assert_eq!(doc.header, "a\r\r\nb\n");
    let again = parse(&serialize(&doc)).unwrap();
    assert_eq!(again.header, "a\r\nb\n");
}
