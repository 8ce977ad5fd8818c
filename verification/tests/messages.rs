use panic_persist::region::{capacity_of, holds_header, length_of, magic_of};
use panic_persist::{
    get_panic_message_bytes, get_panic_message_utf8, report_panic_info, Ram, MAGIC,
};

const WORD: usize = core::mem::size_of::<usize>();

fn blank(capacity: usize) -> Vec<u8> {
    vec![0u8; 2 * WORD + capacity]
}

fn filled(capacity: usize, byte: u8) -> Vec<u8> {
    vec![byte; 2 * WORD + capacity]
}

fn stamped(capacity: usize, magic: usize, length: usize, fill: u8) -> Vec<u8> {
    let mut region = Vec::new();
    region.extend_from_slice(&magic.to_ne_bytes());
    region.extend_from_slice(&length.to_ne_bytes());
    region.resize(2 * WORD + capacity, fill);
    region
}

#[test]
fn long_message_is_cut_to_capacity() {
    let mut region = blank(20);
    let mut ram = Ram::new();
    ram.append(&mut region, b"Hello, World! This message is long");
    assert_eq!(ram.offset, 20);
    let message = get_panic_message_bytes(&mut region);
    assert_eq!(message, Some(&b"Hello, World! This m"[..]));
}

#[test]
fn short_message_is_read_once() {
    let mut region = blank(100);
    let mut ram = Ram::new();
    ram.append(&mut region, b"oops");
    assert_eq!(ram.offset, 4);
    assert_eq!(get_panic_message_bytes(&mut region), Some(&b"oops"[..]));
    assert_eq!(get_panic_message_bytes(&mut region), None);
}

#[test]
fn untouched_region_has_no_message() {
    let mut region = blank(64);
    assert_eq!(get_panic_message_bytes(&mut region), None);
    assert_eq!(region, blank(64));
    let mut region = blank(64);
    assert_eq!(get_panic_message_utf8(&mut region), None);
}

#[test]
fn other_sentinel_is_no_message_and_stays() {
    let mut region = stamped(16, 0x0FAC_ADE1, 4, b'x');
    let before = region.clone();
    assert_eq!(get_panic_message_bytes(&mut region), None);
    assert_eq!(region, before);
}

#[test]
fn header_is_sentinel_then_length_then_payload() {
    let mut region = filled(10, 0xEE);
    let mut ram = Ram::new();
    ram.append(&mut region, b"abc");
    assert_eq!(&region[..WORD], &MAGIC.to_ne_bytes()[..]);
    assert_eq!(&region[..WORD], &0x0FAC_ADE0usize.to_ne_bytes()[..]);
    assert_eq!(&region[WORD..2 * WORD], &3usize.to_ne_bytes()[..]);
    assert_eq!(&region[2 * WORD..2 * WORD + 3], b"abc");
    assert_eq!(&region[2 * WORD + 3..], &[0xEE; 7][..]);
    assert_eq!(region.len(), 2 * WORD + 10);
}

#[test]
fn header_accessors_read_the_two_words() {
    let region = stamped(300, 0x0102_0304, 258, 0);
    assert_eq!(magic_of(&region), 0x0102_0304);
    assert_eq!(length_of(&region), 258);
    assert_eq!(capacity_of(&region), 300);
    let mut region = blank(7);
    report_panic_info(&mut region, "abcde");
    assert_eq!(magic_of(&region), MAGIC);
    assert_eq!(length_of(&region), 5);
    assert_eq!(capacity_of(&region), 7);
}

#[test]
fn region_needs_room_for_header() {
    assert!(holds_header(&blank(0)));
    assert!(holds_header(&blank(1)));
    assert!(!holds_header(&vec![0u8; 2 * WORD - 1]));
    assert!(!holds_header(&[]));
    assert_eq!(capacity_of(&blank(0)), 0);
}

#[test]
fn append_never_touches_bytes_outside_its_span() {
    for capacity in 0..12usize {
        for offset in 0..14usize {
            for len in 0..14usize {
                let data: Vec<u8> = (0..len).map(|i| 0x40 + i as u8).collect();
                let mut region = filled(capacity, 0xA5);
                let before = region.clone();
                let mut ram = Ram { offset };
                ram.append(&mut region, &data);
                assert_eq!(region.len(), before.len());
                let taken = ram.offset - offset;
                assert!(taken <= capacity.min(len));
                if offset >= capacity {
                    assert_eq!(taken, 0);
                    assert_eq!(region, before);
                } else {
                    assert_eq!(taken, len.min(capacity - offset));
                    let area = &region[2 * WORD..];
                    assert_eq!(&area[..offset], &before[2 * WORD..2 * WORD + offset]);
                    assert_eq!(&area[offset..offset + taken], &data[..taken]);
                    assert_eq!(&area[offset + taken..], &before[2 * WORD + offset + taken..]);
                    assert_eq!(magic_of(&region), MAGIC);
                    assert_eq!(length_of(&region), offset + taken);
                }
            }
        }
    }
}

#[test]
fn append_to_full_region_changes_nothing() {
    let mut region = blank(6);
    let mut ram = Ram::new();
    ram.append(&mut region, b"sixsix");
    assert_eq!(ram.offset, 6);
    let full = region.clone();
    ram.append(&mut region, b"more");
    assert_eq!(ram.offset, 6);
    assert_eq!(region, full);
    ram.append(&mut region, b"");
    assert_eq!(region, full);
    assert_eq!(get_panic_message_bytes(&mut region), Some(&b"sixsix"[..]));
}

#[test]
fn region_without_payload_area_is_never_stamped() {
    let mut region = blank(0);
    let mut ram = Ram::new();
    ram.append(&mut region, b"lost");
    assert_eq!(ram.offset, 0);
    assert_eq!(region, blank(0));
    ram.append(&mut region, b"");
    assert_eq!(region, blank(0));
    assert_eq!(get_panic_message_bytes(&mut region), None);
}

#[test]
fn empty_message_is_a_message() {
    let mut region = filled(5, 0x11);
    let mut ram = Ram::new();
    ram.append(&mut region, b"");
    assert_eq!(ram.offset, 0);
    assert_eq!(magic_of(&region), MAGIC);
    assert_eq!(length_of(&region), 0);
    assert_eq!(get_panic_message_bytes(&mut region), Some(&b""[..]));
    assert_eq!(get_panic_message_bytes(&mut region), None);
}

#[test]
fn second_take_finds_nothing() {
    let mut region = blank(32);
    report_panic_info(&mut region, "index out of bounds");
    assert_eq!(get_panic_message_utf8(&mut region), Some("index out of bounds"));
    let after_first = region.clone();
    assert_eq!(get_panic_message_utf8(&mut region), None);
    assert_eq!(get_panic_message_bytes(&mut region), None);
    assert_eq!(region, after_first);
}

#[test]
fn take_clears_the_sentinel_and_nothing_else() {
    let mut region = filled(9, 0x77);
    report_panic_info(&mut region, "boom");
    let written = region.clone();
    assert_eq!(get_panic_message_bytes(&mut region), Some(&b"boom"[..]));
    assert_eq!(&region[..WORD], &vec![0u8; WORD][..]);
    assert_eq!(&region[WORD..], &written[WORD..]);
    assert_eq!(magic_of(&region), 0);
    assert_eq!(length_of(&region), 4);
}

#[test]
fn message_that_fits_comes_back_whole() {
    for capacity in 1..40usize {
        for len in 0..=capacity {
            let message: Vec<u8> = (0..len).map(|i| (i * 7 + 3) as u8).collect();
            let mut region = filled(capacity, 0xCC);
            let mut ram = Ram::new();
            ram.append(&mut region, &message);
            assert_eq!(get_panic_message_bytes(&mut region), Some(&message[..]));
        }
    }
}

#[test]
fn message_that_is_too_long_comes_back_cut() {
    for capacity in 1..20usize {
        for extra in 1..6usize {
            let message: Vec<u8> = (0..capacity + extra).map(|i| (i * 5 + 1) as u8).collect();
            let mut region = filled(capacity, 0x33);
            let mut ram = Ram::new();
            ram.append(&mut region, &message);
            assert_eq!(ram.offset, capacity);
            assert_eq!(get_panic_message_bytes(&mut region), Some(&message[..capacity]));
        }
    }
}

#[test]
fn length_beyond_capacity_is_rejected() {
    let mut region = stamped(8, MAGIC, 9, b'z');
    assert_eq!(get_panic_message_bytes(&mut region), None);
    assert_eq!(&region[..WORD], &vec![0u8; WORD][..]);
    assert_eq!(length_of(&region), 9);
    assert_eq!(get_panic_message_bytes(&mut region), None);

    let mut region = stamped(8, MAGIC, usize::MAX, b'z');
    assert_eq!(get_panic_message_utf8(&mut region), None);
    assert_eq!(magic_of(&region), 0);

    let mut region = stamped(8, MAGIC, 8, b'z');
    assert_eq!(get_panic_message_bytes(&mut region), Some(&b"zzzzzzzz"[..]));
}

#[test]
fn pieces_add_up_to_one_message() {
    let mut whole = filled(24, 0x5A);
    let mut ram = Ram::new();
    ram.append(&mut whole, b"panicked at src/main.rs:7:5");

    let mut pieces = filled(24, 0x5A);
    let mut ram = Ram::new();
    ram.write_str(&mut pieces, "panicked at ");
    assert_eq!(ram.offset, 12);
    assert_eq!(length_of(&pieces), 12);
    ram.write_str(&mut pieces, "src/main.rs");
    assert_eq!(ram.offset, 23);
    ram.write_str(&mut pieces, ":7:5");
    assert_eq!(ram.offset, 24);
    ram.write_str(&mut pieces, "\n");
    assert_eq!(ram.offset, 24);

    assert_eq!(pieces, whole);
    assert_eq!(get_panic_message_utf8(&mut pieces), Some("panicked at src/main.rs:"));
}

#[test]
fn report_starts_the_message_anew() {
    let mut region = blank(16);
    report_panic_info(&mut region, "first failure");
    report_panic_info(&mut region, "second");
    assert_eq!(length_of(&region), 6);
    assert_eq!(&region[2 * WORD..2 * WORD + 13], b"secondfailure");
    assert_eq!(get_panic_message_utf8(&mut region), Some("second"));
}

#[test]
fn text_cut_inside_a_character_loses_that_character() {
    // 'é' is the two bytes C3 A9; with room for five bytes "hellé" is cut between them.
    let mut region = blank(5);
    report_panic_info(&mut region, "hellé");
    let written = region.clone();
    assert_eq!(get_panic_message_bytes(&mut region), Some(&b"hell\xC3"[..]));
    let mut region = written;
    assert_eq!(get_panic_message_utf8(&mut region), Some("hell"));
    assert_eq!(get_panic_message_utf8(&mut region), None);
}

#[test]
fn text_cut_after_a_character_keeps_it() {
    let mut region = blank(5);
    report_panic_info(&mut region, "héllo");
    let written = region.clone();
    assert_eq!(get_panic_message_bytes(&mut region), Some(&b"h\xC3\xA9ll"[..]));
    let mut region = written;
    assert_eq!(get_panic_message_utf8(&mut region), Some("héll"));
}

#[test]
fn text_cut_at_second_byte_leaves_first_character() {
    let mut region = blank(2);
    report_panic_info(&mut region, "héllo");
    let written = region.clone();
    assert_eq!(get_panic_message_bytes(&mut region), Some(&b"h\xC3"[..]));
    let mut region = written;
    assert_eq!(get_panic_message_utf8(&mut region), Some("h"));
}

#[test]
fn text_with_no_valid_start_is_empty() {
    let mut region = blank(1);
    report_panic_info(&mut region, "é");
    assert_eq!(get_panic_message_utf8(&mut region), Some(""));
}
