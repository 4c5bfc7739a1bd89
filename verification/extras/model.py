"""A small model of the formats that the library reads and writes.

It shares no code with the library. Running it prints one digest for each pseudo-random
test in tests/digests.rs, which holds the same numbers.
"""

M64 = (1 << 64) - 1
M32 = (1 << 32) - 1


# ---------------------------------------------------------------- inputs and digests


class Rng:
    def __init__(self, seed):
        self.x = seed

    def next(self):
        self.x = (self.x * 6364136223846793005 + 1442695040888963407) & M64
        return self.x >> 33

    def below(self, n):
        return self.next() % n

    def bytes(self, n):
        return bytes(self.next() & 255 for _ in range(n))


class Digest:
    def __init__(self):
        self.h = 0xCBF29CE484222325

    def put(self, *values):
        for v in values:
            self.h = ((self.h ^ (int(v) & M64)) * 0x100000001B3) & M64


# ---------------------------------------------------------------- bits


class Reader:
    """Bits of some bytes, most significant first. Behind the end there are zeros."""

    def __init__(self, data, pos=0):
        self.data, self.pos, self.end = data, pos, 8 * len(data)

    def read(self, n):
        v = 0
        for _ in range(n):
            inside = self.pos < self.end
            b = (self.data[self.pos >> 3] >> (7 - (self.pos & 7))) & 1 if inside else 0
            v = (2 * v + b) & M32
            self.pos += 1
        return v

    def flag(self):
        return self.read(1) == 1

    def var(self, n, most):
        """A variable-length number in groups of n bits."""
        v, more, groups = self.read(n), self.flag(), 1
        if most <= 1 or not more:
            return v
        v = (v * 2**n + 2**n) & M32
        while more:
            v = (v + self.read(n)) & M32
            more = self.flag()
            if groups >= most:
                break
            if more:
                v = (v * 2**n + 2**n) & M32
                groups += 1
        return v


class Writer:
    def __init__(self):
        self.bits = []

    def put(self, v, n):
        self.bits += [(v >> (n - 1 - i)) & 1 for i in range(n)]

    def var(self, v, n):
        base = 2**n
        if v < base:
            groups = [v]
        elif v < base + base**2:
            u = v - base
            groups = [u // base, u % base]
        else:
            u = v - base - base**2
            groups = [u // base**2, u // base % base, u % base]
        for i, g in enumerate(groups):
            self.put(g, n)
            self.put(int(i + 1 < len(groups)), 1)

    def pack(self):
        return pack(self.bits)


def pack(bits):
    out = bytearray()
    for i in range(0, len(bits), 8):
        c = bits[i : i + 8]
        c = c + [0] * (8 - len(c))
        out.append(int("".join(map(str, c)), 2))
    return bytes(out)


def unpack(data):
    return [(b >> (7 - i)) & 1 for b in data for i in range(8)]


def crc(bits, width, poly):
    c = 0
    for b in bits:
        top = c >> (width - 1)
        c = (c << 1) & (2**width - 1)
        if b ^ top:
            c ^= poly
    return c


# ---------------------------------------------------------------- containers


def find_sync(data):
    i = data.find(b"\x58\x38")
    return None if i < 0 else i


def payload_size(r):
    """The rest of a payload's header, behind its id."""
    offset = r.flag()
    if offset:
        r.read(12)
    if r.flag():
        r.var(11, 8)
    if r.flag():
        r.var(2, 8)
    if r.flag():
        r.read(8)
    if not r.flag():
        aligned = False
        if not offset:
            aligned = r.flag()
            if aligned:
                r.read(2)
        if offset or aligned:
            r.read(7)
    return r.var(8, 8)


def list_payloads(data):
    r = Reader(data[find_sync(data) :], 16)
    length = r.read(16)
    r.read(5)
    out = []
    while r.pos + 5 <= r.end:
        ident = r.read(5)
        if ident == 0:
            break
        size = payload_size(r)
        out.append((ident, size))
        r.pos += 8 * size
        if r.pos > r.end:
            break
    return length, out


def extract_payloads(data):
    r = Reader(data[find_sync(data) :], 37)
    out = []
    while r.pos + 5 <= r.end:
        ident = r.read(5)
        if ident == 0:
            break
        size = payload_size(r)
        if r.pos + 8 * size > r.end:
            break
        out.append((ident, bytes(r.read(8) for _ in range(size))))
    return out


def find_oamd(data):
    r = Reader(data[find_sync(data) :], 37)
    while True:
        ident = r.read(5)
        if ident == 0:
            return None
        size = payload_size(r)
        end = r.pos + 8 * size
        if ident == 11:
            return read_oamd(r)
        r.pos = end


def check_protection(data):
    """Code 1: no end mark; 2: a payload over the end; 3: a value over the end; else the report."""
    body = data[find_sync(data) :]
    r = Reader(body, 37)
    while True:
        if r.pos + 5 > r.end:
            return 1
        if r.read(5) == 0:
            break
        size = payload_size(r)
        r.pos += 8 * size
        if r.pos > r.end:
            return 2
    widths = [0, 8, 32, 128]
    prim, sec = widths[r.read(2)], widths[r.read(2)]
    at = r.pos
    if at + prim > r.end:
        return 3
    bits = unpack(body)
    stored_prim = Reader(body, at).read(min(prim, 32))
    stored_sec = Reader(body, at + prim).read(min(sec, 8))
    ours = crc(bits[32:at], 32, 0x04C11DB7), crc(bits[32 : at + prim], 8, 0x2F)
    whole = (at + prim + sec + 7) // 8
    return prim, sec, at, stored_prim, ours[0], stored_sec, ours[1], body[:whole]


def find_anywhere(frame):
    bits = unpack(frame)
    for s in range(max(0, len(bits) - 16)):
        r = Reader(frame, s)
        if r.read(16) != 0x5838 or s + 32 > len(bits):
            continue
        n = r.read(16)
        if n > 0 and s + 32 + 8 * n <= len(bits):
            return s, pack(bits[s:])
    return None


def wrap(payloads):
    b = Writer()
    b.put(0, 5)
    for ident, data in payloads:
        b.put(ident, 5)
        b.put(0b001, 3)
        b.var(0, 2)
        b.put(0b001, 3)
        b.put(0, 9)
        b.var(len(data), 8)
        b.bits += unpack(data)
    b.put(0, 5)
    b.put(0b1001, 4)
    b.put(crc(b.bits, 32, 0x04C11DB7), 32)
    b.put(crc(b.bits, 8, 0x2F), 8)
    body = b.pack()
    w = Writer()
    w.put(0x5838, 16)
    w.put(len(body) & 0xFFFF, 16)
    return w.pack() + body


# ---------------------------------------------------------------- OAMD


def read_block(r, first, bed):
    silent = r.flag()
    basic = 0 if silent else 1 if first else r.read(2)
    if basic in (1, 3):
        info = 3 if basic == 1 else r.read(2)
        if info & 2 and r.read(2) == 2:
            r.read(6)
        if info & 1 and not r.flag():
            r.read(5)
    render = 0 if silent or bed else 1 if first else r.read(2)
    found = None
    if render in (1, 3):
        info = 15 if render == 1 else r.read(4)
        if info & 1:
            if not first and r.flag():
                r.read(9)
                found = (0, 0, 0, bed)
            else:
                x, y = r.read(6), r.read(6)
                r.read(1)
                found = (x, y, r.read(4), bed)
            if r.flag() and not r.flag():
                r.read(4)
        if info & 2:
            r.read(4)
        if info & 4:
            r.read({1: 5, 2: 15}.get(r.read(2), 0))
        if info & 8 and r.flag():
            r.read(5)
        r.read(1)
    if r.flag():
        r.read(8 * (r.read(4) + 1))
    return (0, 0, 0, True) if found is None and bed else found


def read_oamd(r):
    r.read(2)
    count = r.read(5)
    if count == 31:
        count += r.read(7)
    count += 1
    lfe = r.flag() and r.flag()
    r.read(1)
    objects, elements = [], []
    for _ in range(r.read(4)):
        ident, size = r.read(4), r.var(4, 4)
        end = r.pos + size + 1
        r.read(3)
        blocks = r.read(3) + 1
        for _ in range(blocks):
            r.read(6)
            if r.read(2) == 3:
                r.read(4 if r.flag() else 11)
        r.read(1)
        for o in range(count):
            for b in range(blocks):
                found = read_block(r, b == 0, lfe and o == 0)
                if found:
                    objects.append(found)
        elements.append((ident, size, blocks, r.pos, end))
        r.pos = end
    return count, lfe, objects, elements


def write_oamd(objects, lfe):
    e = Writer()
    e.put(0, 11)
    e.put(0b101, 3)
    if lfe:
        e.put(0b00010, 5)
    for x, y, z in objects:
        e.put(0b0111, 4)
        e.put(x, 6)
        e.put(y, 6)
        e.put(1, 1)
        e.put(z, 4)
        e.put(0b0000100000, 10)
    w = Writer()
    w.put(0, 2)
    count = len(objects) + int(lfe) - 1
    if count < 31:
        w.put(count, 5)
    else:
        w.put(31, 5)
        w.put(count - 31, 7)
    w.put(1, 1)
    w.put(int(lfe), 1)
    w.put(0b000010001, 9)
    w.var(len(e.bits) - 1, 4)
    w.put(0, 1)
    w.bits += e.bits
    return w.pack()


# ---------------------------------------------------------------- JOC


def tree(n):
    nodes = [[0, 0]]

    def grow(lo, hi):
        if hi - lo == 1:
            return -lo - 1
        at = len(nodes)
        nodes.append([0, 0])
        mid = (lo + hi) // 2
        a = grow(lo, mid)
        b = grow(mid, hi)
        nodes[at] = [a, b]
        return at

    rest = grow(1, n)
    nodes[0] = [-1, rest]
    return nodes


BANDS = [1, 3, 5, 7, 9, 12, 15, 23]
GAINS = [tree(96), tree(192)]
PLACES = {5: tree(5), 7: tree(7)}


class Refused(Exception):
    pass


def symbol(t, r):
    node = 0
    while True:
        node = t[node][r.read(1)]
        if node < 0:
            return -node - 1
        if node >= len(t):
            raise Refused(4001)
        if r.pos > r.end:
            raise Refused(3001)


def read_joc(data):
    r = Reader(data)
    dmx = r.read(3)
    if dmx > 4:
        raise Refused(1001 + dmx)
    channels = 5 if dmx in (0, 3) else 7
    count = r.read(6) + 1
    ext = r.read(3)
    if ext:
        raise Refused(2001 + ext)
    head = r.read(3), r.read(5), r.read(10)
    infos = []
    for _ in range(count):
        info = [0] * 9
        if r.flag():
            idx = r.read(3)
            sparse, quant, steep = r.read(1), r.read(1), r.read(1)
            points = r.read(1) + 1
            offsets = [r.read(5) + 1 if steep and k < points else 0 for k in range(2)]
            info = [1, idx, BANDS[idx], sparse, quant, steep, points] + offsets
        infos.append(info)
    values = []
    for active, _, bands, sparse, quant, _, points, _, _ in infos:
        places, gains = [], []
        for _ in range(points if active else 0):
            if sparse:
                places += [r.read(3)] + [symbol(PLACES[channels], r) for _ in range(1, bands)]
            rows = 1 if sparse else channels
            gains += [symbol(GAINS[quant], r) for _ in range(rows * bands)]
        values.append(places + gains)
    if r.pos > r.end:
        raise Refused(5001, r.pos, r.end)
    return [dmx, channels, count, *head, r.pos], infos, values


# ---------------------------------------------------------------- frames


def header(d, off):
    r = Reader(d, 8 * off + 16)
    strmtyp, sub, words, fscod, blocks = r.read(2), r.read(3), r.read(11), r.read(2), r.read(2)
    acmod, lfe, bsid = r.read(3), r.read(1), r.read(5)
    blocks = 6 if fscod == 3 else [1, 2, 3, 6][blocks]
    rate = [48000, 44100, 32000, 0][fscod]
    size = 2 * (words + 1)
    return dict(
        offset=off, size=size, strmtyp=strmtyp, sub=sub, blocks=blocks, fscod=fscod, rate=rate,
        acmod=acmod, lfe=lfe, bsid=bsid,
    )


def parse_frames(d):
    out, off = [], 0
    while off + 6 <= len(d):
        if d[off : off + 2] != b"\x0b\x77":
            off = d.find(b"\x0b\x77", off + 1)
            if off < 0:
                break
            continue
        out.append(header(d, off))
        off += out[-1]["size"]
    return out


def bsi(f, i):
    """What a dump shows of the bit stream information, as a list of numbers."""
    cm, blocks, strmtyp = i["acmod"], i["blocks"], i["strmtyp"]
    r = Reader(f, 45)

    def opt(n):
        on = r.read(1)
        if on:
            r.read(n)
        return on

    out = [r.read(5), opt(8)]
    if cm == 0:
        r.read(5)
        opt(8)
    if strmtyp == 1:
        opt(16)
    mixing, mix = r.read(1), []
    if mixing:
        r.read((2 if cm > 2 else 0) + (6 if cm & 1 and cm > 2 else 0) + (6 if cm & 4 else 0))
        if i["lfe"]:
            opt(5)
        if strmtyp == 0:
            mix = [opt(6)]
            if cm == 0:
                opt(6)
            mix.append(opt(6))
            kind = r.read(2)
            mix.append(kind)
            r.pos += {0: 0, 1: 5, 2: 12}.get(kind, 0)
            if kind == 3:
                n = r.read(5) + 2
                r.pos += 8 * n
            for _ in range({0: 2, 1: 1}.get(cm, 0)):
                opt(14)
            more = r.read(1)
            mix.append(more)
            if more and blocks == 1:
                r.read(5)
            elif more:
                for _ in range(blocks):
                    opt(5)
    out.append(mixing)
    out.append(r.pos)
    informed, info = r.read(1), []
    if informed:
        info = [r.read(3)]
        r.read(2)
        shown = 99
        if cm == 2:
            r.read(4)
        elif cm >= 6:
            shown = r.read(2)
        info += [shown, opt(8)]
        if cm == 0:
            opt(8)
        if i["fscod"] < 3:
            r.read(1)
    out.append(informed)
    if strmtyp == 0 and blocks != 6:
        r.read(1)
    out.append(r.pos)
    added, more = r.read(1), []
    out.append(added)
    if added:
        more = [r.read(8) for _ in range(r.read(6) + 1)]
    out += [r.pos, Reader(f, r.pos + 10).read(1), Reader(f, 8 * len(f) - 18).read(1)]
    return out + mix + info + more


def read_aux(f):
    total = 8 * len(f)
    n = Reader(f, total - 32).read(14)
    if not Reader(f, total - 18).flag() or n == 0 or n > total - 32:
        return None
    return n, pack(unpack(f)[total - 32 - n : total - 32])


# ---------------------------------------------------------------- the digests


def put_container(h, d):
    length, items = list_payloads(d)
    h.put(length, len(items))
    for item in items:
        h.put(*item)
    payloads = extract_payloads(d)
    h.put(len(payloads))
    for ident, data in payloads:
        h.put(ident, len(data), *data)
    found = find_oamd(d)
    if found is None:
        h.put(7777)
    else:
        count, lfe, objects, _ = found
        h.put(count, lfe, len(objects))
        for o in objects:
            h.put(*o)
    p = check_protection(d)
    if isinstance(p, int):
        h.put(p)
    else:
        h.put(*p[:7], len(p[7]), *p[7])


def random_containers(h, rng):
    for _ in range(400):
        d = bytearray(rng.bytes(20 + rng.below(100)))
        at = rng.below(3)
        d[at : at + 2] = b"\x58\x38"
        if rng.below(2) == 0:
            d[at + 4] = (d[at + 4] & 0xF8) | 2
            d[at + 5] = (d[at + 5] & 0x3F) | 0xC0
        put_container(h, bytes(d))


def structured_container(rng):
    w = Writer()
    w.put(0x5838, 16)
    w.put(rng.below(65536), 16)
    w.put(rng.below(32), 5)
    for _ in range(rng.below(4)):
        w.put(1 + rng.below(31) if rng.below(3) else 11, 5)
        offset = rng.below(2)
        w.put(offset, 1)
        if offset:
            w.put(rng.below(4096), 12)
        if rng.below(2):
            w.put(1, 1)
            w.put(rng.below(2048), 11)
            w.put(1, 1)
            w.put(rng.below(2048), 11)
        w.put(0, 1)
        if rng.below(2):
            w.put(1, 1)
            w.put(rng.below(4), 2)
        w.put(0, 1)
        if rng.below(2):
            w.put(1, 1)
            w.put(rng.below(256), 8)
        else:
            w.put(0, 1)
        if rng.below(2):
            w.put(1, 1)
        else:
            w.put(0, 1)
            if offset:
                w.put(rng.below(128), 7)
            elif rng.below(2):
                w.put(1, 1)
                w.put(rng.below(512), 9)
            else:
                w.put(0, 1)
        n = rng.below(30)
        w.put(n, 8)
        w.put(0, 1)
        for _ in range(n):
            w.put(rng.below(256), 8)
    w.put(0, 5)
    w.put(rng.below(16), 4)
    for _ in range(rng.below(40)):
        w.put(rng.below(256), 8)
    return w.pack()


def structured_containers(h, rng):
    for _ in range(400):
        put_container(h, structured_container(rng))


def random_oamd(h, rng):
    for _ in range(150):
        count, lfe, _, elements = read_oamd(Reader(rng.bytes(10 + rng.below(200))))
        h.put(count, lfe, len(elements))
        for e in elements:
            h.put(*e)


def random_frames(h, rng):
    for _ in range(600):
        d = bytearray(rng.bytes(70 + rng.below(60)))
        d[0:2] = b"\x0b\x77"
        if rng.below(4) != 0:
            d[5] = (d[5] & 7) | 0x80
        if rng.below(3) == 0:
            d[2] &= 0x3F
        d = bytes(d)
        i = header(d, 0)
        names = "size strmtyp sub blocks fscod rate acmod lfe bsid"
        h.put(*(i[n] for n in names.split()))
        h.put(*(bsi(d, i) if i["bsid"] == 16 else [9]))
        aux = read_aux(d)
        if aux is None:
            h.put(5)
        else:
            h.put(aux[0], *aux[1])


def random_streams(h, rng):
    for _ in range(300):
        d = bytearray()
        for _ in range(rng.below(6)):
            d += rng.bytes(rng.below(5))
            size = 2 * (2 + rng.below(12))
            f = bytearray(rng.bytes(size))
            f[0:2] = b"\x0b\x77"
            f[2] &= 0xF8
            f[3] = size // 2 - 1
            d += f
        d += rng.bytes(rng.below(8))
        frames = parse_frames(bytes(d))
        h.put(len(frames))
        for f in frames:
            h.put(f["offset"], f["size"], f["strmtyp"], f["acmod"])


def random_places(h, rng):
    for _ in range(200):
        bits = unpack(rng.bytes(40))
        at = rng.below(200)
        w = Writer()
        w.put(0x5838, 16)
        w.put(rng.below(12), 16)
        bits[at : at + 32] = w.bits
        found = find_anywhere(pack(bits))
        if found is None:
            h.put(3)
        else:
            h.put(found[0], *found[1])


def random_joc(h, rng):
    for _ in range(300):
        d = bytearray(rng.bytes(30 + rng.below(1500)))
        if rng.below(5):
            d[0] &= 0x7F if rng.below(2) else 0x1F
        if rng.below(4):
            d[1] &= 0x0F
            d[0] &= 0xE1
        try:
            head, infos, values = read_joc(bytes(d))
        except Refused as e:
            h.put(*e.args)
            continue
        h.put(*head)
        for info, v in zip(infos, values):
            h.put(*info, *v)


def random_payloads(h, rng):
    for _ in range(120):
        n = rng.below(141)
        lfe = rng.below(2) == 0 or n == 0
        objects = [(rng.below(63), rng.below(63), rng.below(16)) for _ in range(n)]
        data = write_oamd(objects, lfe)
        h.put(*data)
        extra = rng.bytes(rng.below(700))
        h.put(*wrap([(11, data), (1 + rng.below(31), extra)]))


TESTS = [
    (random_containers, 1),
    (random_oamd, 2),
    (random_frames, 3),
    (random_streams, 4),
    (random_places, 5),
    (structured_containers, 11),
    (random_joc, 12),
    (random_payloads, 13),
]

if __name__ == "__main__":
    for test, seed in TESTS:
        digest = Digest()
        test(digest, Rng(seed))
        print(f"{test.__name__}: {digest.h:#x}")
