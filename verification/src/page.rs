//! The page that browsers get, in parts. `__DEVICE_NAME__` stands for the name of
//! this device.

use vstd::prelude::*;
use vstd::string::*;

verus! {

/// What it looks like.
pub const PAGE_STYLE: &'static str = r#"<!DOCTYPE html>
<html lang="zh-CN">
<head>
<meta charset="utf-8">
<meta name="viewport" content="width=device-width, initial-scale=1, maximum-scale=1">
<title>LocalTransfer</title>
<style>
  :root { color-scheme: light dark; }
  * { box-sizing: border-box; margin: 0; }
  html, body { height: 100%; }
  body { font-family: system-ui, "Microsoft YaHei", sans-serif; background: #f4f5f7; color: #1f2328;
         display: flex; flex-direction: column; }
  @media (prefers-color-scheme: dark) {
    body { background: #17181c; color: #e6e8eb; }
    .fcard { background: #26282e !important; }
    .bub-in { background: #2a2c33 !important; }
  }
  header { padding: 14px 16px 10px; border-bottom: 1px solid rgba(127,127,127,.18); }
  header h1 { font-size: 16px; display: flex; align-items: center; gap: 8px; }
  header .sub { font-size: 12px; opacity: .55; margin-top: 3px; }
  #msgs { flex: 1; overflow-y: auto; padding: 16px; display: flex; flex-direction: column; gap: 10px; }
  .row { display: flex; }
  .row.out { justify-content: flex-end; }
  .bub { max-width: 78%; padding: 8px 12px; border-radius: 14px; font-size: 14px;
         white-space: pre-wrap; word-break: break-word; }
  .bub-in { background: #e7e9ee; border-bottom-left-radius: 4px; }
  .row.out .bub { background: #6366f1; color: #fff; border-bottom-right-radius: 4px; }
  .fcard { max-width: 78%; background: #fff; border: 1px solid rgba(127,127,127,.2);
           border-radius: 12px; padding: 10px; display: flex; gap: 10px; align-items: center; }
  .ffolder { flex-direction: column; align-items: stretch; }
  .ffolder > div { display: flex; gap: 10px; align-items: center; }
  .flist { margin-top: 8px; border-top: 1px solid rgba(127,127,127,.15); padding-top: 4px; }
  .fitem2 { display: flex; align-items: center; gap: 8px; padding: 5px 2px; font-size: 12px; }
  .finame { flex: 1; min-width: 0; overflow: hidden; text-overflow: ellipsis; white-space: nowrap; }
  .fidl a { color: #6366f1; text-decoration: none; }
  .fidl a:hover { text-decoration: underline; }
  .ficon { width: 36px; height: 36px; border-radius: 8px; background: rgba(99,102,241,.15);
           color: #6366f1; display: flex; align-items: center; justify-content: center; flex: none; }
  .fmeta { flex: 1; min-width: 0; }
  .fname { font-size: 13px; overflow: hidden; text-overflow: ellipsis; white-space: nowrap; }
  .fsize { font-size: 12px; opacity: .55; margin-top: 2px; }
  .time { font-size: 10px; opacity: .4; margin-top: 2px; }
  a.dlbtn, .upbtn { border: 0; border-radius: 8px; padding: 7px 12px; font-size: 13px; cursor: pointer;
        background: #6366f1; color: #fff; text-decoration: none; display: inline-block; flex: none; }
  .exp { font-size: 11px; opacity: .5; }
  .prog { height: 3px; background: rgba(127,127,127,.25); border-radius: 2px; overflow: hidden; margin-top: 6px; }
  .prog > div { height: 100%; background: #6366f1; width: 0; transition: width .15s; }
  #inputbar { display: flex; gap: 8px; padding: 10px 12px; border-top: 1px solid rgba(127,127,127,.18);
              background: inherit; align-items: flex-end; }
  #txt { flex: 1; border: 1px solid rgba(127,127,127,.35); border-radius: 10px; padding: 9px 12px;
         font-size: 14px; background: transparent; color: inherit; resize: none; min-height: 40px; max-height: 110px; }
  .ibtn { border: 0; background: transparent; color: inherit; font-size: 19px; cursor: pointer;
          padding: 8px; border-radius: 8px; flex: none; }
  .ibtn:hover { background: rgba(127,127,127,.12); }
  #send { background: #6366f1; color: #fff; border-radius: 10px; padding: 9px 16px; border: 0;
          font-size: 14px; cursor: pointer; flex: none; }
  #empty { text-align: center; opacity: .45; font-size: 13px; margin: auto; padding: 0 24px; line-height: 1.8; }
  .fclick { cursor: pointer; }
  .fclick:hover { border-color: rgba(99,102,241,.55); }
  #modal { position: fixed; inset: 0; background: rgba(0,0,0,.45); display: none;
           align-items: center; justify-content: center; z-index: 10; padding: 20px; }
  #modal.show { display: flex; }
  .sheet { background: #fff; color: #1f2328; border-radius: 14px; max-width: 420px; width: 100%;
           max-height: 70vh; display: flex; flex-direction: column; overflow: hidden;
           box-shadow: 0 12px 40px rgba(0,0,0,.25); }
  @media (prefers-color-scheme: dark) {
    .sheet { background: #26282e; color: #e6e8eb; }
  }
  .sheet h3 { font-size: 14px; padding: 14px 16px 10px; display: flex; align-items: center; gap: 8px; }
  .sheet h3 .cnt { font-size: 11px; opacity: .5; font-weight: normal; }
  .sheet .body { overflow-y: auto; padding: 0 12px 12px; }
  .sheet .fitem2 { padding: 8px 4px; border-top: 1px solid rgba(127,127,127,.12); }
  .sheet .fitem2:first-child { border-top: 0; }
  .fbtn { border: 0; border-radius: 8px; padding: 6px 10px;
          font-size: 12px; cursor: pointer; color: #6366f1; text-decoration: none;
          display: inline-block; flex: none; white-space: nowrap; }
  a.fbtn:hover, div.fbtn:hover { background: rgba(99,102,241,.12); }
  .spd { min-height: 15px; }
  .cmenu { position: fixed; z-index: 30; background: #fff; color: #1f2328; border-radius: 10px;
           box-shadow: 0 6px 24px rgba(0,0,0,.22); padding: 4px; min-width: 120px; }
  @media (prefers-color-scheme: dark) { .cmenu { background: #2a2c33; color: #e6e8eb; } }
  .citem { padding: 8px 14px; font-size: 13px; border-radius: 7px; cursor: pointer; }
  .citem:hover { background: rgba(127,127,127,.14); }
  .citem.danger { color: #dc2626; }
  .citem.disabled { opacity: .4; cursor: default; }
  .citem.disabled:hover { background: transparent; }
  #toast { position: fixed; left: 50%; bottom: 76px; transform: translateX(-50%) translateY(8px);
           background: rgba(30,32,38,.92); color: #fff; padding: 8px 16px; border-radius: 9px;
           font-size: 13px; opacity: 0; pointer-events: none; transition: all .2s; z-index: 40; }
  #toast.show { opacity: 1; transform: translateX(-50%) translateY(0); }
</style>
</head>
"#;

/// What it is made of.
pub const PAGE_BODY: &'static str = r#"<body>
<header>
  <h1>&#128172; <span id="dev"></span></h1>
  <div class="sub">LocalTransfer 网页客户端 · 与电脑互发文字和文件</div>
</header>
<div id="msgs"><div id="empty">和电脑端互发消息、文件、文件夹<br>电脑端「发送到网页」的文件会出现在这里</div></div>
<div id="modal" onclick="if(event.target===this)this.classList.remove('show')">
  <div class="sheet">
    <h3 id="mtitle"></h3>
    <div class="body" id="mlist"></div>
  </div>
</div>
<div id="toast"></div>
<div id="inputbar">
  <button class="ibtn" title="发送文件" onclick="document.getElementById('fpick').click()">&#128196;</button>
  <button class="ibtn" title="发送文件夹" onclick="document.getElementById('dpick').click()">&#128193;</button>
  <textarea id="txt" rows="1" placeholder="输入消息，Enter 发送"></textarea>
  <button id="send" onclick="sendText()">发送</button>
</div>
<input type="file" id="fpick" multiple hidden>
<input type="file" id="dpick" webkitdirectory hidden>
"#;

/// Fetching messages.
pub const PAGE_MESSAGES: &'static str = r#"<script>
var DEV = "__DEVICE_NAME__";
var lastId = 0, known = {};
document.getElementById("dev").textContent = DEV;
document.title = DEV + " · 网页客户端";
var msgsEl = document.getElementById("msgs");

function fmt(b) { var u = ["B","KB","MB","GB"]; var i = 0; while (b >= 1024 && i < 4) { b /= 1024; i++; } return i ? b.toFixed(1) + " " + u[i] : b + " B"; }
function fmtTime(t) { var d = new Date(t); return d.toTimeString().slice(0,5); }
function esc(s) { var d = document.createElement("div"); d.textContent = s; return d.innerHTML; }

function refresh() {
  return fetch("/api/web/messages?since=" + lastId).then(function(r){ return r.json(); }).then(function(list) {
    if (!list.length) return;
    var e = document.getElementById("empty"); if (e) e.remove();
    for (var i = 0; i < list.length; i++) {
      var m = list[i];
      if (m.id > lastId) lastId = m.id;
      if (known[m.id]) continue;
      known[m.id] = true;
      addMessage(m);
    }
    msgsEl.scrollTop = msgsEl.scrollHeight;
  }).catch(function(){});
}

var batches = {};

function addMessage(m) {
  if (m.kind === "text") { msgsEl.appendChild(renderText(m)); return; }
  if (m.tid) {
    var b = batches[m.tid];
    if (!b) {
      b = batches[m.tid] = { files: [], outgoing: m.outgoing,
                             el: document.createElement("div") };
      b.el.className = "row " + (m.outgoing ? "" : "out");
    }
    b.files.push(m);
    if (!b.pending) drawBatch(b);
  } else {
    msgsEl.appendChild(renderFileCard(m));
  }
}

"#;

/// Files that came together.
pub const PAGE_BATCHES: &'static str = r#"function drawBatch(b) {
  var files = b.files;
  var withDir = false, total = 0;
  for (var k = 0; k < files.length; k++) {
    if (files[k].rel && files[k].rel.indexOf("/") >= 0) withDir = true;
    total += files[k].size;
  }
  var c;
  if (files.length > 1 || withDir) {
    var name = withDir ? files[0].rel.split("/")[0] : (files.length + " 个文件");
    c = document.createElement("div");
    c.className = "fcard fclick";
    var icon = document.createElement("div"); icon.className = "ficon"; icon.innerHTML = "&#128193;";
    var meta = document.createElement("div"); meta.className = "fmeta";
    var nm = document.createElement("div"); nm.className = "fname"; nm.textContent = name;
    var sz = document.createElement("div"); sz.className = "fsize";
    sz.textContent = files.length + " 个文件 · " + fmt(total) + " · " +
                     fmtTime(files[0].created_at);
    meta.appendChild(nm); meta.appendChild(sz);
    c.appendChild(icon); c.appendChild(meta);
    var vb = document.createElement("div");
    vb.className = "fbtn"; vb.textContent = "🔍 查看";
    vb.onclick = function(e) { e.stopPropagation(); openFolder(name, files); };
    c.appendChild(vb);
    if (files.some(function(f){ return f.offer; })) {
      var z = document.createElement("a");
      z.className = "fbtn"; z.textContent = "📦 打包下载";
      z.setAttribute("download", "");
      z.href = "/api/web/download-zip/" + encodeURIComponent(files[0].tid);
      z.onclick = function(e) { e.stopPropagation(); };
      c.appendChild(z);
    }
    c.onclick = function() { openFolder(name, files); };
  } else {
    c = fileCardEl(files[0]);
  }
  var ids = files.map(function(f){ return f.id; });
  attachMenu(c, [menuDel(function(){ deleteMsg(ids, b.el, b); })]);
  if (!b.el.parentNode) msgsEl.appendChild(b.el);
  b.el.replaceChildren(c);
}

"#;

/// What a folder holds.
pub const PAGE_FOLDER: &'static str = r#"function openFolder(name, files) {
  var total = 0; for (var k = 0; k < files.length; k++) total += files[k].size;
  var mt = document.getElementById("mtitle");
  mt.innerHTML = "&#128193; " + esc(name) +
    ' <span class="cnt">' + files.length + " 个文件 · " + fmt(total) + "</span>";
  var ml = document.getElementById("mlist");
  ml.textContent = "";
  for (var k = 0; k < files.length; k++) {
    var f = files[k];
    var it = document.createElement("div"); it.className = "fitem2";
    var d = document.createElement("div"); d.className = "finame";
    d.textContent = f.rel && f.rel.indexOf("/") >= 0
      ? f.rel.slice(f.rel.indexOf("/") + 1) : f.name;
    d.title = d.textContent;
    var dl = document.createElement("div"); dl.className = "fidl";
    if (f.offer) {
      var a = document.createElement("a");
      a.textContent = "下载"; a.setAttribute("download", "");
      a.href = "/api/web/download/" + f.offer;
      dl.appendChild(a);
    } else if (f.outgoing) {
      dl.textContent = "已失效"; dl.className = "exp";
    } else {
      dl.textContent = fmt(f.size);
    }
    it.appendChild(d); it.appendChild(dl);
    ml.appendChild(it);
  }
  document.getElementById("modal").classList.add("show");
}
document.addEventListener("keydown", function(e) {
  if (e.key === "Escape") document.getElementById("modal").classList.remove("show");
});

"#;

/// Texts and files, and what can be done with them.
pub const PAGE_ROWS: &'static str = r#"function renderText(m) {
  var row = document.createElement("div");
  row.className = "row " + (m.outgoing ? "" : "out");
  var b = document.createElement("div");
  b.className = "bub bub-in";
  b.textContent = m.text;
  row.appendChild(b);
  attachMenu(b, [
    { label: "复制", fn: function() { copyText(m.text); } },
    menuDel(function() { deleteMsg([m.id], row, null); }),
  ]);
  return row;
}

function renderFileCard(m) {
  var row = document.createElement("div");
  row.className = "row " + (m.outgoing ? "" : "out");
  row.appendChild(fileCardEl(m));
  attachMenu(row, [menuDel(function(){ deleteMsg([m.id], row, null); })]);
  return row;
}

var menuEl = null;
function closeMenu() {
  if (menuEl) { menuEl.remove(); menuEl = null; }
}
document.addEventListener("click", closeMenu);
window.addEventListener("blur", closeMenu);
function attachMenu(el, items) {
  el.addEventListener("contextmenu", function(e) {
    e.preventDefault(); e.stopPropagation();
    closeMenu();
    menuEl = document.createElement("div");
    menuEl.className = "cmenu";
    for (var i = 0; i < items.length; i++) {
      var it = document.createElement("div");
      it.className = "citem" + (items[i].danger ? " danger" : "");
      it.textContent = items[i].label;
      it.onclick = items[i].fn;
      menuEl.appendChild(it);
    }
    document.body.appendChild(menuEl);
    var x = Math.min(e.clientX, window.innerWidth - menuEl.offsetWidth - 8);
    var y = Math.min(e.clientY, window.innerHeight - menuEl.offsetHeight - 8);
    menuEl.style.left = Math.max(8, x) + "px";
    menuEl.style.top = Math.max(8, y) + "px";
  });
}
function menuDel(fn) { return { label: "删除", danger: true, fn: fn }; }

function deleteMsg(ids, el, b) {
  fetch("/api/web/messages/delete", {
    method: "POST",
    headers: { "Content-Type": "application/json" },
    body: JSON.stringify({ ids: ids })
  }).then(function() { el.remove(); }).catch(function(){});
  if (b) {
    for (var k in batches) {
      if (batches[k] === b) { delete batches[k]; break; }
    }
  }
}

function copyText(t) {
  var ta = document.createElement("textarea");
  ta.value = t;
  ta.style.position = "fixed"; ta.style.opacity = "0";
  document.body.appendChild(ta);
  ta.select();
  try { document.execCommand("copy"); } catch (e) {}
  ta.remove();
}

"#;

/// A file.
pub const PAGE_CARDS: &'static str = r#"function fileCardEl(m) {
  var c = document.createElement("div");
  c.className = "fcard";
  var icon = document.createElement("div"); icon.className = "ficon"; icon.innerHTML = "&#128196;";
  var meta = document.createElement("div"); meta.className = "fmeta";
  var nm = document.createElement("div"); nm.className = "fname"; nm.textContent = m.name;
  var sz = document.createElement("div"); sz.className = "fsize";
  sz.textContent = fmt(m.size) + " · " + fmtTime(m.created_at);
  meta.appendChild(nm); meta.appendChild(sz);
  c.appendChild(icon); c.appendChild(meta);
  if (m.outgoing && m.offer) {
    var a = document.createElement("a");
    a.className = "dlbtn"; a.textContent = "下载"; a.setAttribute("download", "");
    a.href = "/api/web/download/" + m.offer;
    c.appendChild(a);
  } else if (m.outgoing) {
    var x = document.createElement("div"); x.className = "exp"; x.textContent = "已失效";
    c.appendChild(x);
  }
  return c;
}

"#;

/// Typing and sending.
pub const PAGE_INPUT: &'static str = r#"function sendText() {
  var el = document.getElementById("txt");
  var t = el.value.trim();
  if (!t) return;
  el.value = ""; fitTxt();
  fetch("/api/web/message", {
    method: "POST",
    headers: { "Content-Type": "application/json" },
    body: JSON.stringify({ text: t })
  }).then(refresh);
}
document.getElementById("txt").addEventListener("keydown", function(e) {
  if (e.key === "Enter" && !e.shiftKey) { e.preventDefault(); sendText(); }
});

var txtEl = document.getElementById("txt");
function fitTxt() {
  txtEl.style.height = "auto";
  txtEl.style.height = Math.min(txtEl.scrollHeight, 110) + "px";
}
txtEl.addEventListener("input", fitTxt);

var toastTimer = null;
function toast(s) {
  var t = document.getElementById("toast");
  t.textContent = s; t.classList.add("show");
  clearTimeout(toastTimer);
  toastTimer = setTimeout(function() { t.classList.remove("show"); }, 2200);
}

"#;

/// Cut, copy and paste.
pub const PAGE_EDITING: &'static str = r#"txtEl.addEventListener("contextmenu", function(e) {
  e.preventDefault(); e.stopPropagation();
  closeMenu();
  var hasSel = txtEl.selectionStart !== txtEl.selectionEnd;
  menuEl = document.createElement("div");
  menuEl.className = "cmenu";
  function add(label, enabled, fn) {
    var it = document.createElement("div");
    it.className = "citem" + (enabled ? "" : " disabled");
    it.textContent = label;
    if (enabled) it.onclick = fn;
    menuEl.appendChild(it);
  }
  add("剪切", hasSel, function() {
    txtEl.focus(); document.execCommand("cut"); fitTxt();
  });
  add("复制", hasSel, function() {
    txtEl.focus(); document.execCommand("copy");
  });
  add("粘贴", true, function() { pasteInto(); });
  add("全选", txtEl.value.length > 0, function() {
    txtEl.focus(); txtEl.select();
  });
  document.body.appendChild(menuEl);
  var x = Math.min(e.clientX, window.innerWidth - menuEl.offsetWidth - 8);
  var y = Math.min(e.clientY, window.innerHeight - menuEl.offsetHeight - 8);
  menuEl.style.left = Math.max(8, x) + "px";
  menuEl.style.top = Math.max(8, y) + "px";
});

function insertAtCursor(el, text) {
  var s = el.selectionStart, e2 = el.selectionEnd;
  el.value = el.value.slice(0, s) + text + el.value.slice(e2);
  var pos = s + text.length;
  el.setSelectionRange(pos, pos);
  el.focus(); fitTxt();
}
function pasteInto() {
  if (navigator.clipboard && navigator.clipboard.readText) {
    navigator.clipboard.readText().then(function(t) {
      insertAtCursor(txtEl, t);
    }).catch(function() {
      txtEl.focus(); toast("此环境无法读取剪贴板，请按 Ctrl+V 粘贴");
    });
  } else {
    txtEl.focus(); toast("此环境无法读取剪贴板，请按 Ctrl+V 粘贴");
  }
}

"#;

/// Uploads.
pub const PAGE_UPLOADS: &'static str = r#"function uploadFiles(files) {
  var arr = Array.prototype.slice.call(files);
  if (!arr.length) return;
  var batch = Date.now().toString(36) + Math.random().toString(36).slice(2, 10);
  var pb = batches[batch] = { files: [], outgoing: false,
                              el: document.createElement("div"), pending: true };
  pb.el.className = "row out";
  var cur = document.createElement("div");
  cur.className = "row out";
  cur.innerHTML = '<div class="fcard"><div class="ficon">&#9207;</div><div class="fmeta">' +
    '<div class="fname">正在发送 ' + arr.length + ' 个文件…</div>' +
    '<div class="fsize spd"></div>' +
    '<div class="prog"><div></div></div></div></div>';
  msgsEl.appendChild(cur);
  msgsEl.scrollTop = msgsEl.scrollHeight;
  var bar = cur.querySelector(".prog > div");
  var nameEl = cur.querySelector(".fname");
  var speedEl = cur.querySelector(".spd");
  var total = arr.reduce(function(s, f){ return s + f.size; }, 0), done = 0;
  var failed = 0;
  var lastT = 0, lastB = 0;
  function next(i) {
    if (i >= arr.length) {
      refresh().then(function() {
        pb.pending = false;
        if (pb.files.length) drawBatch(pb); else delete batches[batch];
        if (failed) nameEl.textContent = "发送完成（" + failed + " 个失败）";
        else if (cur.parentNode) cur.remove();
        msgsEl.scrollTop = msgsEl.scrollHeight;
      });
      return;
    }
    var f = arr[i];
    nameEl.textContent = "正在发送 (" + (i+1) + "/" + arr.length + ") " + f.name;
    var rel = f.webkitRelativePath || f.name;
    var xhr = new XMLHttpRequest();
    xhr.open("POST", "/api/web/upload?name=" + encodeURIComponent(f.name) +
             "&rel=" + encodeURIComponent(rel) + "&batch=" + encodeURIComponent(batch));
    xhr.upload.onprogress = function(ev) {
      if (ev.lengthComputable) {
        bar.style.width = Math.round(((done + ev.loaded) / total) * 100) + "%";
        var now = Date.now(), curB = done + ev.loaded;
        if (now - lastT >= 400) {
          if (lastT > 0 && curB > lastB)
            speedEl.textContent = fmt((curB - lastB) / ((now - lastT) / 1000)) + "/s";
          lastT = now; lastB = curB;
        }
      }
    };
    xhr.onloadend = function() {
      done += f.size;
      if (xhr.status !== 200) {
        failed++;
        nameEl.textContent = "发送失败: " + f.name + " (" + xhr.status + ")";
      }
      next(i + 1);
    };
    xhr.send(f);
  }
  next(0);
}
document.getElementById("fpick").addEventListener("change", function() {
  uploadFiles(this.files); this.value = "";
});
document.getElementById("dpick").addEventListener("change", function() {
  uploadFiles(this.files); this.value = "";
});

refresh();
setInterval(refresh, 1500);
</script>
</body>
</html>
"#;

/// The whole page.
pub open spec fn page_text() -> Seq<char> {
    PAGE_STYLE@ + PAGE_BODY@
        + PAGE_MESSAGES@
        + PAGE_BATCHES@
        + PAGE_FOLDER@
        + PAGE_ROWS@
        + PAGE_CARDS@
        + PAGE_INPUT@
        + PAGE_EDITING@
        + PAGE_UPLOADS@
}

pub fn web_page() -> (r: String)
    ensures
        r@ == page_text(),
{
    let mut out = PAGE_STYLE.to_owned();
    out.append(PAGE_BODY);
    out.append(PAGE_MESSAGES);
    out.append(PAGE_BATCHES);
    out.append(PAGE_FOLDER);
    out.append(PAGE_ROWS);
    out.append(PAGE_CARDS);
    out.append(PAGE_INPUT);
    out.append(PAGE_EDITING);
    out.append(PAGE_UPLOADS);
    out
}

} // verus!
