"""Prints what an installed libtcl 8.6 makes of a command.

    python3 expected_tokens.py 'puts "a $b"' [--nested]

The output has the form of the expected values in tests/tokens.rs: the comment, the
range, the number of words, and each token as kind@start+size/components.
"""

import ctypes
import sys

KINDS = {
    1: "Word",
    2: "SimpleWord",
    4: "Text",
    8: "Backslash",
    16: "Command",
    32: "Variable",
    64: "SubExpr",
    128: "Operator",
    256: "ExpandWord",
}


class Token(ctypes.Structure):
    _fields_ = [
        ("type", ctypes.c_int),
        ("start", ctypes.c_void_p),
        ("size", ctypes.c_int),
        ("components", ctypes.c_int),
    ]


class Parse(ctypes.Structure):
    _fields_ = [
        ("comment_start", ctypes.c_void_p),
        ("comment_size", ctypes.c_int),
        ("command_start", ctypes.c_void_p),
        ("command_size", ctypes.c_int),
        ("words", ctypes.c_int),
        ("tokens", ctypes.POINTER(Token)),
        ("num_tokens", ctypes.c_int),
        ("available", ctypes.c_int),
        ("error_type", ctypes.c_int),
        ("string", ctypes.c_void_p),
        ("end", ctypes.c_void_p),
        ("interp", ctypes.c_void_p),
        ("term", ctypes.c_void_p),
        ("incomplete", ctypes.c_int),
        ("static_tokens", Token * 20),
        ("spare", ctypes.c_char * 256),
    ]


def parse(source, nested):
    lib = ctypes.CDLL("libtcl8.6.so")
    lib.Tcl_FindExecutable(b"expected_tokens")
    text = source.encode()
    buffer = ctypes.create_string_buffer(text + b"\0")
    base = ctypes.addressof(buffer)
    p = Parse()
    code = lib.Tcl_ParseCommand(
        None, ctypes.c_void_p(base), len(text), int(nested), ctypes.byref(p)
    )
    if code != 0:
        tail = " (incomplete)" if p.incomplete else ""
        return f"error at {p.term - base}{tail}"
    out = ""
    if p.comment_start and p.comment_size:
        start = p.comment_start - base
        out += f"comment {start}..{start + p.comment_size}, "
    start = p.command_start - base
    out += f"{start}..{start + p.command_size}, {p.words} words:"
    for i in range(p.num_tokens):
        t = p.tokens[i]
        out += f" {KINDS[t.type]}@{t.start - base}+{t.size}/{t.components}"
    lib.Tcl_FreeParse(ctypes.byref(p))
    return out


if __name__ == "__main__":
    print(parse(sys.argv[1], "--nested" in sys.argv[2:]))
