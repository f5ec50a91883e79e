use csv_splitter::batch::make_batches;
use csv_splitter::filename::format_decimal;
use csv_splitter::filename::get_basename;
use csv_splitter::filename::get_filename;
use csv_splitter::render::render_file;
use csv_splitter::sequential::split_sequential;
use csv_splitter::sequential::SequentialSplitter;
use csv_splitter::split::split_plan;
use csv_splitter::split::OutputFile;

fn rows(n: usize) -> Vec<Vec<u8>> {
    let mut v: Vec<Vec<u8>> = Vec::new();
    for i in 0..n {
        v.push(format!("row{},x", i).into_bytes());
    }
    v
}

fn lines_of(content: &[u8]) -> Vec<Vec<u8>> {
    let mut out: Vec<Vec<u8>> = Vec::new();
    let mut cur: Vec<u8> = Vec::new();
    for &b in content {
        if b == b'\n' {
            out.push(cur);
            cur = Vec::new();
        } else {
            cur.push(b);
        }
    }
    assert!(cur.is_empty(), "content must end with a line feed");
    out
}

fn plans_equal(a: &[OutputFile], b: &[OutputFile]) -> bool {
    a.len() == b.len()
        && a.iter()
            .zip(b.iter())
            .all(|(x, y)| x.name == y.name && x.content == y.content)
}

#[test]
fn format_decimal_exact() {
    assert_eq!(format_decimal(0), b"0".to_vec());
    assert_eq!(format_decimal(7), b"7".to_vec());
    assert_eq!(format_decimal(10), b"10".to_vec());
    assert_eq!(format_decimal(12345), b"12345".to_vec());
    assert_eq!(format_decimal(1000), b"1000".to_vec());
}

#[test]
fn filename_exact() {
    let name = get_filename(&b"output/data".to_vec(), &b"input".to_vec(), 3);
    assert_eq!(name, b"output/data/input-3.csv".to_vec());
    let name = get_filename(&b"out".to_vec(), &b"data".to_vec(), 12);
    assert_eq!(name, b"out/data-12.csv".to_vec());
}

#[test]
fn filenames_distinct_across_batches() {
    let mut seen: Vec<Vec<u8>> = Vec::new();
    for batch in 1..=20 {
        let name = get_filename(&b"o".to_vec(), &b"f".to_vec(), batch);
        assert!(!seen.contains(&name));
        seen.push(name);
    }
}

#[test]
fn filename_deterministic() {
    let a = get_filename(&b"dir".to_vec(), &b"base".to_vec(), 9);
    let b = get_filename(&b"dir".to_vec(), &b"base".to_vec(), 9);
    assert_eq!(a, b);
}

#[test]
fn basename_cases() {
    assert_eq!(get_basename(&b"dir/sub/file.csv".to_vec()), b"file".to_vec());
    assert_eq!(get_basename(&b"file.csv".to_vec()), b"file".to_vec());
    assert_eq!(get_basename(&b"file".to_vec()), b"file".to_vec());
    assert_eq!(get_basename(&b".bashrc".to_vec()), b".bashrc".to_vec());
    assert_eq!(get_basename(&b"a/b/.hidden".to_vec()), b".hidden".to_vec());
    assert_eq!(
        get_basename(&b"data/archive.tar.gz".to_vec()),
        b"archive.tar".to_vec()
    );
}

#[test]
fn render_exact_bytes() {
    let header = b"h1,h2".to_vec();
    let rows = vec![b"a,1".to_vec(), b"b,2".to_vec()];
    let content = render_file(&header, &rows);
    assert_eq!(content, b"h1,h2\na,1\nb,2\n".to_vec());
}

#[test]
fn render_header_only() {
    let header = b"only".to_vec();
    let content = render_file(&header, &Vec::new());
    assert_eq!(content, b"only\n".to_vec());
}

#[test]
fn batches_sizes_partial_tail() {
    let batches = make_batches(&rows(10), 3);
    let sizes: Vec<usize> = batches.iter().map(|b| b.len()).collect();
    assert_eq!(sizes, vec![3, 3, 3, 1]);
}

#[test]
fn batches_sizes_exact_multiple() {
    let batches = make_batches(&rows(9), 3);
    let sizes: Vec<usize> = batches.iter().map(|b| b.len()).collect();
    assert_eq!(sizes, vec![3, 3, 3]);
}

#[test]
fn batches_complete_and_ordered() {
    let input = rows(10);
    let batches = make_batches(&input, 4);
    let mut joined: Vec<Vec<u8>> = Vec::new();
    for b in &batches {
        for r in b {
            joined.push(r.clone());
        }
    }
    assert_eq!(joined, input);
}

#[test]
fn scenario_three_files() {
    let header = b"a,b,c".to_vec();
    let input = rows(2500);
    let plan = split_plan(
        &b"in/big.csv".to_vec(),
        &b"out".to_vec(),
        &header,
        &input,
        1000,
    );
    assert_eq!(plan.len(), 3);
    assert_eq!(plan[0].name, b"out/big-1.csv".to_vec());
    assert_eq!(plan[1].name, b"out/big-2.csv".to_vec());
    assert_eq!(plan[2].name, b"out/big-3.csv".to_vec());
    let mut all: Vec<Vec<u8>> = Vec::new();
    let expect_sizes = [1000usize, 1000, 500];
    for (k, file) in plan.iter().enumerate() {
        let lines = lines_of(&file.content);
        assert_eq!(lines[0], header);
        assert_eq!(lines.len(), expect_sizes[k] + 1);
        for l in &lines[1..] {
            all.push(l.clone());
        }
    }
    assert_eq!(all, input);
}

#[test]
fn scenario_header_only_input() {
    let header = b"a,b,c".to_vec();
    let empty: Vec<Vec<u8>> = Vec::new();
    let plan = split_plan(&b"x.csv".to_vec(), &b"out".to_vec(), &header, &empty, 1000);
    assert_eq!(plan.len(), 0);
    let seq = split_sequential(&b"x.csv".to_vec(), &b"out".to_vec(), &header, &empty, 1000);
    assert_eq!(seq.len(), 0);
}

#[test]
fn scenario_exact_fit_single_file() {
    let header = b"h".to_vec();
    let input = rows(1000);
    let plan = split_plan(&b"x.csv".to_vec(), &b"out".to_vec(), &header, &input, 1000);
    assert_eq!(plan.len(), 1);
    let lines = lines_of(&plan[0].content);
    assert_eq!(lines.len(), 1001);
    assert_eq!(lines[0], header);
}

#[test]
fn strategies_agree() {
    let header = b"a,b".to_vec();
    for (n, m) in [(0usize, 3usize), (1, 3), (3, 3), (10, 3), (2500, 1000), (7, 1)] {
        let input = rows(n);
        let par = split_plan(&b"d/in.csv".to_vec(), &b"o".to_vec(), &header, &input, m);
        let seq = split_sequential(&b"d/in.csv".to_vec(), &b"o".to_vec(), &header, &input, m);
        assert!(plans_equal(&par, &seq));
    }
}

#[test]
fn splitter_emits_on_full_batches_only() {
    let mut s = SequentialSplitter::new(
        &b"in.csv".to_vec(),
        b"out".to_vec(),
        b"hdr".to_vec(),
        2,
    );
    assert!(s.push(b"r1".to_vec()).is_none());
    let first = s.push(b"r2".to_vec());
    let first = first.expect("second record completes the batch");
    assert_eq!(first.name, b"out/in-1.csv".to_vec());
    assert_eq!(first.content, b"hdr\nr1\nr2\n".to_vec());
    assert!(s.push(b"r3".to_vec()).is_none());
    let last = s.finish().expect("a short batch remains");
    assert_eq!(last.name, b"out/in-2.csv".to_vec());
    assert_eq!(last.content, b"hdr\nr3\n".to_vec());
}

#[test]
fn splitter_no_empty_trailing_file() {
    let mut s = SequentialSplitter::new(
        &b"in.csv".to_vec(),
        b"out".to_vec(),
        b"hdr".to_vec(),
        2,
    );
    assert!(s.push(b"r1".to_vec()).is_none());
    assert!(s.push(b"r2".to_vec()).is_some());
    assert!(s.finish().is_none());
}

#[test]
fn max_rows_one() {
    let header = b"h".to_vec();
    let input = rows(3);
    let plan = split_plan(&b"t.csv".to_vec(), &b"o".to_vec(), &header, &input, 1);
    assert_eq!(plan.len(), 3);
    for (k, file) in plan.iter().enumerate() {
        let lines = lines_of(&file.content);
        assert_eq!(lines.len(), 2);
        assert_eq!(lines[0], header);
        assert_eq!(lines[1], input[k]);
    }
}
