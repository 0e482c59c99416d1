//! Captured states, with the files kept in memory.
use cascadia_engine_sparse_moe::inkling::capture::{
    budget_from, capture_folder, part_name, StateCapture, PROMPT_AT, UNSAMPLED,
};
use half::f16;

/// The files of a capture folder: the one that is being written, and the finished ones.
struct Folder {
    parts: Vec<Vec<u8>>,
    done: Vec<Vec<u8>>,
    names: Vec<String>,
    index: Vec<u8>,
}

impl Folder {
    fn new() -> Self {
        Folder {
            parts: vec![],
            done: vec![],
            names: vec![],
            index: vec![],
        }
    }

    fn write(&mut self, at: u64, b: &[u8]) {
        let f = self.parts.last_mut().unwrap();
        let end = at as usize + b.len();
        if f.len() < end {
            f.resize(end, 0);
        }
        f[at as usize..end].copy_from_slice(b);
    }

    fn open(&mut self, c: &mut StateCapture, slot: usize) {
        if let Some(h) = c.open(slot) {
            self.parts.push(vec![]);
            self.write(0, &h);
        }
    }

    fn rows(&mut self, c: &mut StateCapture, slot: usize, pos: usize, v: &[f32]) {
        let bits: Vec<u16> = v.iter().map(|&x| f16::from_f32(x).to_bits()).collect();
        if let Some((at, b)) = c.rows(slot, pos, &bits) {
            self.write(at, &b);
        }
    }

    fn token(&mut self, c: &mut StateCapture, slot: usize, pos: usize, token: i64) {
        if let Some(w) = c.token(slot, pos, token) {
            if let Some(p) = w.prompt {
                self.write(PROMPT_AT, &p);
            }
            self.write(w.at, &w.token);
        }
    }

    fn truncate(&mut self, c: &StateCapture, slot: usize, len: usize) {
        if let Some(n) = c.truncate(slot, len) {
            self.parts.last_mut().unwrap().truncate(n as usize);
        }
    }

    fn close(&mut self, c: &mut StateCapture, slot: usize) {
        if let Some(s) = c.close_begin(slot) {
            let size = self.parts.last().unwrap().len() as u64;
            let (name, line) = c.close(&s, "boot", size);
            if let Some(l) = line {
                let f = self.parts.pop().unwrap();
                self.done.push(f);
                self.names.push(name);
                self.index.extend_from_slice(&l);
            }
        }
    }

    fn files(&self) -> usize {
        self.parts.len() + self.done.len() + usize::from(!self.index.is_empty())
    }
}

#[test]
fn rewind_preserves_accepted_positions_and_slot_reuse_is_separate() {
    let mut dir = Folder::new();
    let mut c = StateCapture::new(10, 2, 4096, 0);
    dir.open(&mut c, 1);
    dir.rows(&mut c, 1, 0, &[1., 2., 3., 4.]);
    dir.token(&mut c, 1, 1, 11);
    dir.rows(&mut c, 1, 2, &[5., 6.]);
    dir.token(&mut c, 1, 2, 99);
    dir.truncate(&c, 1, 2);
    dir.rows(&mut c, 1, 2, &[7., 8.]);
    dir.token(&mut c, 1, 2, 12);
    dir.close(&mut c, 1);
    let bytes = dir.done[0].clone();
    assert_eq!(bytes.len(), 32 + 3 * 12);
    assert_eq!(&bytes[..8], b"INKCAP01");
    assert_eq!(u32::from_le_bytes(bytes[20..24].try_into().unwrap()), 2);
    assert_eq!(i64::from_le_bytes(bytes[56..64].try_into().unwrap()), 12);
    assert_eq!(
        f16::from_le_bytes(bytes[64..66].try_into().unwrap()).to_f32(),
        7.
    );
    dir.open(&mut c, 1);
    dir.rows(&mut c, 1, 0, &[0., 0.]);
    dir.close(&mut c, 1);
    assert_eq!(dir.files(), 3);
    assert_eq!(dir.names[0], "r10-s1-boot-1.bin");
    // the index names every finished file, one line each
    let lines: Vec<&[u8]> = dir.index.split(|&b| b == b'\n').collect();
    assert_eq!(lines.len(), 3);
    let first: serde_json::Value = serde_json::from_slice(lines[0]).unwrap();
    assert_eq!(first["file"], "r10-s1-boot-1.bin");
    assert_eq!(first["size"], 68);
    assert_eq!(first["rank"], 10);
    assert_eq!(first["slot"], 1);
    assert_eq!(first["prompt_rows"], 2);
    assert_eq!(first["hidden"], 2);
    // the second capture starts over, with its own number and no sampled token
    let again = &dir.done[1];
    assert_eq!(u64::from_le_bytes(again[24..32].try_into().unwrap()), 2);
    assert_eq!(
        u64::from_le_bytes(again[32..40].try_into().unwrap()),
        UNSAMPLED
    );
}

#[test]
fn budget_failure_never_finalizes_partial_capture_and_survives_restart() {
    let mut dir = Folder::new();
    let mut c = StateCapture::new(1, 2, 44, 0);
    dir.open(&mut c, 0);
    dir.rows(&mut c, 0, 0, &[1., 2.]);
    dir.rows(&mut c, 0, 1, &[3., 4.]);
    dir.close(&mut c, 0);
    assert!(c.failed);
    assert_eq!(dir.files(), 1);
    assert_eq!(dir.parts.len(), 1, "the file keeps its unfinished name");
    // what an earlier run wrote counts against the budget
    let written = dir.parts[0].len() as u64;
    let mut again = StateCapture::new(1, 2, 44, written);
    dir.open(&mut again, 1);
    assert!(again.failed);
    assert_eq!(dir.files(), 1);
}

#[test]
fn capture_settings() {
    assert_eq!(capture_folder(1, 2, Some("f"), Some("b")), Some("f"));
    assert_eq!(capture_folder(0, 2, Some("f"), Some("b")), Some("b"));
    assert_eq!(capture_folder(1, 2, None, Some("b")), Some("b"));
    assert_eq!(capture_folder(1, 2, Some(""), Some("b")), None);
    assert_eq!(budget_from(None), 2048 << 20);
    assert_eq!(budget_from(Some("3")), 3 << 20);
    assert_eq!(budget_from(Some(" 3")), 2048 << 20);
    assert_eq!(budget_from(Some("18446744073709551615")), u64::MAX);
    assert_eq!(part_name(3, 1, "boot", 7), "r3-s1-boot-7.part");
}

#[test]
fn an_index_entry_is_charged_with_its_line_end() {
    let mut c = StateCapture::new(1, 2, 10, 0);
    assert_eq!(c.close_charge(Some(vec![b'x'; 5])), Some(b"xxxxx\n".to_vec()));
    assert_eq!(c.written, 6);
    assert_eq!(c.close_charge(Some(vec![b'x'; 4])), None);
    assert!(c.failed);
    let mut c = StateCapture::new(1, 2, 10, 0);
    assert_eq!(c.close_charge(None), None);
    assert!(c.failed);
}
