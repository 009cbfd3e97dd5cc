use gchemol_parser::parsers::{eol, jump_to, read_until_eol, read_usize};
use gchemol_parser::partition::ReadPart;
use gchemol_parser::TextReader;
use std::collections::HashMap;

#[derive(Debug)]
struct FrameData {
    timestep: usize,
    natoms: usize,
}

fn tag<'a>(s: &'a str, t: &str) -> Option<&'a str> {
    s.starts_with(t).then(|| jump_to(s, t).unwrap().0)
}

fn read_meta_data(s: &str) -> Option<(&str, FrameData)> {
    let s = tag(s, "ITEM: TIMESTEP")?;
    let (s, _) = eol(s)?;
    // current timestep in this frame
    let (s, timestep) = read_usize(s)?;
    let s = tag(s, "ITEM: NUMBER OF ATOMS")?;
    let (s, _) = eol(s)?;
    // number of atoms
    let (s, natoms) = read_usize(s)?;
    Some((s, FrameData { timestep, natoms }))
}

#[test]
fn test_read_meta_data() {
    let txt = "ITEM: TIMESTEP
 0
ITEM: NUMBER OF ATOMS
537
ITEM: BOX BOUNDS pp pp pp
-200.487 200.487
-200.487 200.487
-200.487 200.487
";
    let (_, x) = read_meta_data(txt).unwrap();
    assert_eq!(x.timestep, 0);
    assert_eq!(x.natoms, 537);
}

#[derive(Debug)]
struct BoxData {
    t: String,
    a: String,
    b: String,
    c: String,
}

fn read_box_data(s: &str) -> Option<(&str, BoxData)> {
    let s = tag(s, "ITEM: BOX BOUNDS")?;
    let (s, t) = read_until_eol(s)?; // pp pp pp
    let (s, a) = read_until_eol(s)?; // -200.487 200.487
    let (s, b) = read_until_eol(s)?; // -200.487 200.487
    let (s, c) = read_until_eol(s)?; // -200.487 200.487
    Some((s, BoxData { t: t.into(), a: a.into(), b: b.into(), c: c.into() }))
}

#[test]
fn test_read_box_data() {
    let txt = "ITEM: BOX BOUNDS pp pp pp
-200.487 200.487
-200.487 200.487
-200.487 200.487
";
    let (r, x) = read_box_data(txt).unwrap();
    assert_eq!(r, "");
    assert_eq!(x.t, " pp pp pp");
    assert_eq!(x.a, x.b);
    assert_eq!(x.c, "-200.487 200.487");
}

// ITEM: ATOMS id type x y z c_eng c_cn c_cnt c_cna
fn read_atom_header(s: &str) -> Option<(&str, &str)> {
    let s = tag(s, "ITEM: ATOMS")?;
    // the line including column headers
    read_until_eol(s)
}

#[test]
fn test_read_atom_header() {
    let txt = "ITEM: ATOMS id type x y z c_eng c_cn c_cnt c_cna
1 1 0.542919 3.02575 -9.81464 -3.53666 9 9.42606 5
";
    let (_, x) = read_atom_header(txt).unwrap();
    assert_eq!(x, " id type x y z c_eng c_cn c_cnt c_cna");
}

#[derive(Debug)]
struct Atom {
    symbol: usize,
    x: f64,
    y: f64,
    z: f64,
}

fn read_atoms(input: &str, natoms: usize) -> Option<(&str, HashMap<usize, Atom>)> {
    let (mut rest, header_line) = read_atom_header(input)?;
    let mut atom_lines = vec![];
    for _ in 0..natoms {
        let (behind, line) = read_until_eol(rest)?;
        atom_lines.push(line);
        rest = behind;
    }

    // collect column headers
    let headers: Vec<_> = header_line.trim().split_whitespace().collect();

    // parse rows
    let nheaders = headers.len();
    // required labels
    let labels = vec!["type", "id", "x", "y", "z"];
    let mapping: HashMap<_, _> = labels
        .iter()
        .map(|k| {
            let i = headers.iter().position(|s| s == k).expect("missing header lable");
            (*k, i)
        })
        .collect();

    // parse atom properties
    let atoms: HashMap<_, _> = atom_lines
        .into_iter()
        .map(|line| {
            let items: Vec<_> = line.trim().split_whitespace().collect();
            assert_eq!(items.len(), nheaders);
            let sym: usize = items[mapping["type"]].parse().expect("invalid type data");
            let id: usize = items[mapping["id"]].parse().expect("invalid id data");
            let x: f64 = items[mapping["x"]].parse().expect("invalid x data");
            let y: f64 = items[mapping["y"]].parse().expect("invalid y data");
            let z: f64 = items[mapping["z"]].parse().expect("invalid z data");
            (id, Atom { symbol: sym, x, y, z })
        })
        .collect();

    Some((rest, atoms))
}

#[test]
fn test_read_atoms() {
    let txt = "ITEM: ATOMS id type x y z c_eng c_cn c_cnt c_cna
1 1 0.542919 3.02575 -9.81464 -3.53666 9 9.42606 5
2 1 -0.566175 4.44199 -8.2352 -3.78452 11 5.16628 5
3 1 0.274667 2.58508 -6.92683 -4.05727 12 4.9903 5
4 1 -1.0285 4.21504 -5.29927 -4.12135 10 4.87744 5
5 1 -0.209709 2.20696 -4.20742 -3.99243 10 0.410664 3
6 1 -1.26547 3.85937 -2.59029 -4.01771 10 0.241619 5
7 1 -0.638752 1.99003 -1.2366 -4.03166 11 0.141509 3
8 1 -1.75827 3.6228 0.296721 -4.14419 13 0.28179 5
9 1 -0.927052 1.51729 1.59026 -3.98979 11 0.889157 5
10 1 -2.18531 3.375 2.91709 -4.08537 12 4.52081 5
11 1 -1.33645 1.21535 4.42074 -4.04849 12 0.307786 3
";

    let (_, x) = read_atoms(txt, 5).unwrap();
    assert_eq!(x.len(), 5);
    assert_eq!(x[&5].x, -0.209709);
    assert_eq!(x[&1].symbol, 1);
    assert_eq!((x[&2].y, x[&2].z), (4.44199, -8.2352));
}

fn read_lammps_dump(input: &str) -> Option<(&str, HashMap<usize, Atom>)> {
    let (rest, frame_data) = read_meta_data(input)?;
    let (rest, _box_data) = read_box_data(rest)?;
    read_atoms(rest, frame_data.natoms)
}

fn collect<P: ReadPart>(mut parts: gchemol_parser::partition::Partitions<P>) -> Vec<String> {
    let mut all = vec![];
    while let Some(part) = parts.next().unwrap() {
        all.push(part);
    }
    all
}

#[test]
fn lammps_trj_test_parser() {
    let mut dump = String::new();
    for step in 0..3 {
        dump += &format!("ITEM: TIMESTEP\n{}\nITEM: NUMBER OF ATOMS\n2\n", step);
        dump += "ITEM: BOX BOUNDS pp pp pp\n-200.487 200.487\n-200.487 200.487\n-200.487 200.487\n";
        dump += "ITEM: ATOMS id type x y z\n2 1 0.5 3.0 -9.8\n1 1 -0.5 4.4 -8.2\n";
    }
    let reader = TextReader::from_str(&dump);
    let frames: Vec<_> = collect(reader.partitions_preceded(|line| line.starts_with("ITEM: TIMESTEP")))
        .into_iter()
        .map(|data| {
            let (_, part) = read_lammps_dump(&data).unwrap();
            part
        })
        .collect();
    assert_eq!(frames.len(), 3);
    assert_eq!(frames[2][&1].y, 4.4);
}
