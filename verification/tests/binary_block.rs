use customasm::annotated::SourceFile;
use customasm::binary_block::{Bank, BinaryBlock, SourceSpan};

fn span(file: &str, start: usize, end: usize) -> SourceSpan {
    SourceSpan { file: file.to_string(), location: Some((start, end)) }
}

fn block_of(bytes: &[u8]) -> BinaryBlock {
    let mut b = BinaryBlock::new();
    for byte in bytes {
        for k in 0..8 {
            b.append(byte & (0x80 >> k) != 0, None);
        }
    }
    b
}

#[test]
fn write_grows_and_read_gives_back() {
    let mut b = BinaryBlock::new();
    b.write(5, true, None);
    assert_eq!(b.len(), 6);
    assert!(b.read(5));
    assert!(!b.read(4));
    assert!(!b.read(60));
    b.write(5, false, None);
    assert!(!b.read(5));
    b.truncate(2);
    assert_eq!(b.len(), 2);
    b.truncate(10);
    assert_eq!(b.len(), 2);
}

#[test]
fn appending_from_one_source_extends_one_range() {
    let mut b = BinaryBlock::new();
    let s = span("a.asm", 0, 3);
    let t = span("a.asm", 4, 7);
    b.append(true, Some((0, &s)));
    b.append(false, Some((0, &s)));
    b.append(true, Some((1, &t)));
    b.mark_label(3, 7, &t);
    assert_eq!(b.spans.len(), 3);
    assert_eq!((b.spans[0].start, b.spans[0].end, b.spans[0].addr), (0, 2, 0));
    assert_eq!((b.spans[1].start, b.spans[1].end, b.spans[1].addr), (2, 3, 1));
    assert_eq!((b.spans[2].start, b.spans[2].end, b.spans[2].addr), (3, 3, 7));
}

#[test]
fn strings_of_digits() {
    let b = block_of(&[0x12, 0xab]);
    assert_eq!(b.generate_binstr(0, 16), "0001001010101011");
    assert_eq!(b.generate_hexstr(0, 16), "12ab");
    assert_eq!(b.generate_hexstr(0, 12), "12a");
    assert_eq!(b.generate_str(3, 0, 6), "04");
}

#[test]
fn binary_reads_whole_bytes() {
    let b = block_of(&[0x12, 0xab]);
    assert_eq!(b.generate_binary(0, 16), vec![0x12, 0xab]);
    assert_eq!(b.generate_binary(0, 4), vec![0x12]);
    assert_eq!(b.generate_binary(8, 16), vec![0xab]);
}

#[test]
fn mif_listing() {
    let b = block_of(&[0x12, 0xab]);
    assert_eq!(
        b.generate_mif(0, 16),
        "DEPTH = 2;\nWIDTH = 8;\nADDRESS_RADIX = HEX;\nDATA_RADIX = HEX;\n\nCONTENT\nBEGIN\n 0: 12;\n 1: AB;\nEND;"
    );
}

#[test]
fn intel_hex_records_and_checksum() {
    let b = block_of(&[0x12, 0xab]);
    assert_eq!(b.generate_intelhex(0, 16), ":0200000012AB41\n:00000001FF");
    assert_eq!(BinaryBlock::new().generate_intelhex(0, 0), ":00000001FF");
}

#[test]
fn comma_and_c_array() {
    let b = block_of(&[0x12, 0xab]);
    assert_eq!(b.generate_comma(0, 16, 10), "18, 171");
    assert_eq!(b.generate_comma(0, 16, 16), "0x12, 0xab");
    assert_eq!(b.generate_c_array(0, 16, 16), "const unsigned char data[] = {\n\t/* 0x0 */ 0x12, 0xab\n};");
    assert_eq!(b.generate_c_array(0, 16, 10), "const unsigned char data[] = {\n\t/* 0x0 */ 18, 171\n};");
}

#[test]
fn comma_breaks_lines_every_sixteen_bytes() {
    let b = block_of(&[1; 17]);
    let text = b.generate_comma(0, 17 * 8, 10);
    assert_eq!(text, "1, 1, 1, 1, 1, 1, 1, 1, 1, 1, 1, 1, 1, 1, 1, 1, \n1");
}

#[test]
fn logisim_image() {
    let b = block_of(&[0x12, 0xab]);
    assert_eq!(b.generate_logisim(0, 16, 8), "v2.0 raw\n12 ab ");
    assert_eq!(b.generate_logisim(0, 16, 16), "v2.0 raw\n12ab ");
}

#[test]
fn hex_dump_line() {
    let b = block_of(&[0x12, 0xab]);
    assert_eq!(
        b.generate_hexdump(0, 16),
        " 0 | 12 ab .. ..  .. .. .. ..  .. .. .. ..  .. .. .. .. | ................ |\n"
    );
}

#[test]
fn bin_dump_line() {
    let b = block_of(&[0x41]);
    assert_eq!(
        b.generate_bindump(0, 8),
        " 0 | 01000001 ........ ........ ........  ........ ........ ........ ........ | A....... |\n"
    );
}

#[test]
fn annotated_listing() {
    let files = vec![SourceFile { name: "main.asm".to_string(), chars: "ld 5\nnop".chars().collect() }];
    let mut b = BinaryBlock::new();
    let first = span("main.asm", 0, 4);
    let second = span("main.asm", 5, 8);
    for k in 0..8 {
        b.append(0x12u8 & (0x80 >> k) != 0, Some((0, &first)));
    }
    for k in 0..8 {
        b.append(0xabu8 & (0x80 >> k) != 0, Some((1, &second)));
    }
    assert_eq!(
        b.generate_annotated_hex(&files, 0, 16),
        " outp | addr | data\n\n  0:0 |    0 | 12             ; ld 5\n  1:0 |    1 | ab             ; nop\n"
    );
}

#[test]
fn annotated_listing_with_label() {
    let files = vec![SourceFile { name: "main.asm".to_string(), chars: "nop\nlbl:\nhlt".chars().collect() }];
    let mut b = BinaryBlock::new();
    let first = span("main.asm", 0, 3);
    let label = span("main.asm", 4, 8);
    let second = span("main.asm", 9, 12);
    for k in 0..8 {
        b.append(0xeau8 & (0x80 >> k) != 0, Some((0, &first)));
    }
    b.mark_label(4, 0, &label);
    for _ in 0..8 {
        b.append(false, Some((1, &second)));
    }
    assert_eq!(
        b.generate_annotated_hex(&files, 0, 16),
        " outp | addr | data\n\n  0:4 |    0 |                ; lbl:\n  0:0 |    0 | ea             ; nop\n  1:0 |    1 | 00             ; hlt\n"
    );
}

#[test]
fn annotated_listing_skips_label_after_its_range() {
    let files = vec![SourceFile { name: "main.asm".to_string(), chars: "start:\nnop".chars().collect() }];
    let mut b = BinaryBlock::new();
    let label = span("main.asm", 0, 6);
    let insn = span("main.asm", 7, 10);
    b.mark_label(0, 0, &label);
    for k in 0..8 {
        b.append(0xeau8 & (0x80 >> k) != 0, Some((0, &insn)));
    }
    assert_eq!(
        b.generate_annotated_hex(&files, 0, 8),
        " outp | addr | data\n\n  0:0 |    0 | ea             ; nop\n"
    );
}

#[test]
fn new_bank_is_empty() {
    let bank = Bank::new("data");
    assert_eq!(bank.bank_name, "data");
    assert_eq!(bank.bits.len(), 0);
    assert_eq!(bank.bits.spans.len(), 0);
}

#[test]
fn annotated_binary_listing() {
    let files = vec![SourceFile { name: "main.asm".to_string(), chars: "ld 5\nnop".chars().collect() }];
    let mut b = BinaryBlock::new();
    let first = span("main.asm", 0, 4);
    for k in 0..8 {
        b.append(0x12u8 & (0x80 >> k) != 0, Some((0, &first)));
    }
    let expected = format!(" outp | addr | data\n\n  0:0 |    0 | {:44} ; ld 5\n", "00010010");
    assert_eq!(b.generate_annotated_bin(&files, 0, 8), expected);
}

#[test]
fn intel_hex_record_bytes_sum_to_zero() {
    let b = block_of(&[0x12, 0xab, 0xff, 0x00, 0x7e]);
    let text = b.generate_intelhex(0, 40);
    let record = text.lines().next().unwrap();
    let digits = &record[1..];
    let mut sum: u32 = 0;
    for k in (0..digits.len()).step_by(2) {
        sum += u32::from_str_radix(&digits[k..k + 2], 16).unwrap();
    }
    assert_eq!(sum % 256, 0);
    assert!(text.ends_with("\n:00000001FF"));
}
