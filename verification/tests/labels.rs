use sith::labels::{elide, human, human_size, import_key, one_line, strip_size, tail};

#[test]
fn byte_counts_read_short() {
    assert_eq!(human(0), "0");
    assert_eq!(human(1023), "1023");
    assert_eq!(human(1024), "1.0K");
    assert_eq!(human(1536), "1.5K");
    assert_eq!(human(1048576), "1.0M");
    assert_eq!(human(3 * 1048576 + 104858), "3.1M");
}

#[test]
fn halves_round_to_even_as_the_formatter_does() {
    // 1.25 MiB and 1.75 MiB are exact halves at one decimal.
    assert_eq!(human(1310720), "1.2M");
    assert_eq!(human(1835008), "1.8M");
    assert_eq!(human(1280), "1.2K");
}

#[test]
fn the_wizard_spells_out_units() {
    assert_eq!(human_size(512), "512 B");
    assert_eq!(human_size(2048), "2 KB");
    assert_eq!(human_size(1536), "2 KB");
    assert_eq!(human_size(2560), "2 KB");
    assert_eq!(human_size(3584), "4 KB");
    assert_eq!(human_size(1572864), "1.5 MB");
}

#[test]
fn long_paths_keep_their_end() {
    assert_eq!(tail("abcdef", 4), "\u{2026}def");
    assert_eq!(tail("abc", 4), "abc");
    assert_eq!(tail("abcd", 4), "abcd");
    assert_eq!(tail("abc", 0), "\u{2026}");
}

#[test]
fn long_titles_keep_their_start() {
    assert_eq!(elide("abcdef", 4), "abc\u{2026}");
    assert_eq!(elide("abc", 4), "abc");
    assert_eq!(elide("abc", 0), "\u{2026}");
    assert_eq!(one_line("  a\nb\tc  ", 10), "a b c");
    assert_eq!(one_line("line one\nline two", 6), "line \u{2026}");
}

#[test]
fn size_prefixes_go() {
    assert_eq!(strip_size("mov word ptr [bx], 1"), "mov ptr [bx], 1");
    assert_eq!(strip_size("byte [si]"), "[si]");
    assert_eq!(strip_size("dword [bx+4]"), "[bx+4]");
    assert_eq!(strip_size("word [bp-0Ah]"), "[bp-0Ah]");
    assert_eq!(strip_size("qword [si], dword [di]"), "[si], [di]");
    assert_eq!(import_key("KERNEL.GlobalAlloc"), "iKERNEL.GlobalAlloc");
}
